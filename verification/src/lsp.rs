//! Language servers: what each of them has said it can do, which files it has
//! been told about, and what is asked of it.
use vstd::prelude::*;

use crate::chars::{chars_of, same};
use crate::client::capabilities;
use crate::doc::DocId;
use crate::json::{
    as_array, as_i64, as_str, as_u64, each, field, field_in, int_in, lemma_said, list_in, maybe,
    nat_in, text_in, Json, Value,
};
use crate::numbers::{decimal, write_number};
use crate::path::{among, is_same, same_path};
use crate::rpc::{asked, claimed, spoken, waiting_place, Peer, Sent, Talk};
use crate::split::{cut, cut_at, deep};
use crate::strings::{maybe_text, precedes, text_of, texts};
use crate::uri::uri;
use crate::vars::pairs;

verus! {

// ---------------------------------------------------------------------------
// What is asked for
// ---------------------------------------------------------------------------

/// Which server, as everything outside holds onto one.
#[derive(Clone, Copy, PartialEq, Eq, Structural, Hash, Debug, PartialOrd, Ord)]
pub struct ServerId(pub usize);

/// Which kind of "where is this" was asked.
#[derive(Clone, Copy, PartialEq, Eq, Structural, Debug)]
pub enum Goto {
    Definition,
    Type,
    Implementation,
}

/// What a question about a place is called.
pub open spec fn goto_method(g: Goto) -> Seq<char> {
    match g {
        Goto::Definition => "textDocument/definition"@,
        Goto::Type => "textDocument/typeDefinition"@,
        Goto::Implementation => "textDocument/implementation"@,
    }
}

/// The capability that answers a question about a place.
pub open spec fn goto_capability(g: Goto) -> Seq<char> {
    match g {
        Goto::Definition => "definitionProvider"@,
        Goto::Type => "typeDefinitionProvider"@,
        Goto::Implementation => "implementationProvider"@,
    }
}

impl Goto {
    /// What it is asked by.
    pub fn method(&self) -> (s: &'static str)
        ensures
            s@ == goto_method(*self),
    {
        match self {
            Goto::Definition => "textDocument/definition",
            Goto::Type => "textDocument/typeDefinition",
            Goto::Implementation => "textDocument/implementation",
        }
    }

    /// What it is called.
    pub fn label(&self) -> (s: &'static str)
        ensures
            s@ == match self {
                Goto::Definition => "definition"@,
                Goto::Type => "type definition"@,
                Goto::Implementation => "implementation"@,
            },
    {
        match self {
            Goto::Definition => "definition",
            Goto::Type => "type definition",
            Goto::Implementation => "implementation",
        }
    }
}

/// What was asked for, so that the answer knows what it is an answer to.
#[derive(Debug)]
pub enum Ask {
    Initialize,
    Completion { doc: DocId, at: usize, version: i32 },
    Hover { doc: DocId, at: usize },
    /// With a name to search the project for if there is no answer.
    Goto { doc: DocId, what: Goto, fallback: Option<String> },
    References,
    Symbols { doc: DocId },
    /// With the name, where one hit should be gone to rather than listed.
    WorkspaceSymbols { going: Option<String> },
    Rename { to: String },
    Format { doc: DocId, version: i32 },
    CodeActions { doc: DocId, at: usize },
    /// The fixes a server would make to a whole file on its own.
    SourceActions { doc: DocId, version: i32 },
    /// Fixes for whatever is wrong under the cursor.
    QuickFixes { doc: DocId, at: usize },
    Signature { doc: DocId, at: usize },
    ResolveAction,
    /// With which suggestion in the open list it is.
    ResolveCompletion { doc: DocId, index: usize },
    Command,
    /// The text of a class that lives inside a jar, and where in it one was
    /// going.
    ClassFile { uri: String, line: usize, column: usize },
}

/// What was asked for.
pub ghost enum Asked {
    Initialize,
    Completion(DocId, usize, i32),
    Hover(DocId, usize),
    Goto(DocId, Goto, Option<Seq<char>>),
    References,
    Symbols(DocId),
    WorkspaceSymbols(Option<Seq<char>>),
    Rename(Seq<char>),
    Format(DocId, i32),
    CodeActions(DocId, usize),
    SourceActions(DocId, i32),
    QuickFixes(DocId, usize),
    Signature(DocId, usize),
    ResolveAction,
    ResolveCompletion(DocId, usize),
    Command,
    ClassFile(Seq<char>, usize, usize),
}

impl View for Ask {
    type V = Asked;

    open spec fn view(&self) -> Asked {
        match self {
            Ask::Initialize => Asked::Initialize,
            Ask::Completion { doc, at, version } => Asked::Completion(*doc, *at, *version),
            Ask::Hover { doc, at } => Asked::Hover(*doc, *at),
            Ask::Goto { doc, what, fallback } => Asked::Goto(*doc, *what, maybe_text(*fallback)),
            Ask::References => Asked::References,
            Ask::Symbols { doc } => Asked::Symbols(*doc),
            Ask::WorkspaceSymbols { going } => Asked::WorkspaceSymbols(maybe_text(*going)),
            Ask::Rename { to } => Asked::Rename(to@),
            Ask::Format { doc, version } => Asked::Format(*doc, *version),
            Ask::CodeActions { doc, at } => Asked::CodeActions(*doc, *at),
            Ask::SourceActions { doc, version } => Asked::SourceActions(*doc, *version),
            Ask::QuickFixes { doc, at } => Asked::QuickFixes(*doc, *at),
            Ask::Signature { doc, at } => Asked::Signature(*doc, *at),
            Ask::ResolveAction => Asked::ResolveAction,
            Ask::ResolveCompletion { doc, index } => Asked::ResolveCompletion(*doc, *index),
            Ask::Command => Asked::Command,
            Ask::ClassFile { uri, line, column } => Asked::ClassFile(uri@, *line, *column),
        }
    }
}

// ---------------------------------------------------------------------------
// What is kept of a server
// ---------------------------------------------------------------------------

/// How far along a server is.
#[derive(PartialEq, Eq, Debug)]
pub enum State {
    /// Asked to initialize, waiting for the answer.
    Starting,
    Ready,
    /// It died, or would not start. The words say which.
    Dead(String),
}

/// How far along a server is.
pub ghost enum Standing {
    Starting,
    Ready,
    Dead(Seq<char>),
}

impl View for State {
    type V = Standing;

    open spec fn view(&self) -> Standing {
        match self {
            State::Starting => Standing::Starting,
            State::Ready => Standing::Ready,
            State::Dead(why) => Standing::Dead(why@),
        }
    }
}

/// How a server wants to hear about an edit, as it said at startup.
#[derive(Clone, Copy, PartialEq, Eq, Structural, Debug)]
pub enum Sync {
    /// Not at all.
    Off,
    /// The whole document, every time.
    Full,
    /// Just what changed, as ranges.
    Incremental,
}

/// A language server, as a manifest gives it.
#[derive(Debug)]
pub struct Config {
    pub id: String,
    pub name: String,
    pub command: String,
    pub args: Vec<String>,
    pub roots: Vec<String>,
    pub init_options: Option<Json>,
    pub settings: Option<Json>,
    pub env: Vec<(String, String)>,
}

/// A language server, as a manifest gives it.
#[verifier::ext_equal]
pub ghost struct Recipe {
    pub id: Seq<char>,
    pub name: Seq<char>,
    pub command: Seq<char>,
    pub args: Seq<Seq<char>>,
    pub roots: Seq<Seq<char>>,
    pub init_options: Option<Value>,
    pub settings: Option<Value>,
    pub env: Seq<(Seq<char>, Seq<char>)>,
}

impl View for Config {
    type V = Recipe;

    open spec fn view(&self) -> Recipe {
        Recipe {
            id: self.id@,
            name: self.name@,
            command: self.command@,
            args: texts(self.args@),
            roots: texts(self.roots@),
            init_options: maybe_json(self.init_options),
            settings: maybe_json(self.settings),
            env: pairs(self.env@),
        }
    }
}

/// One running server.
#[derive(Debug)]
pub struct Server {
    pub id: ServerId,
    /// What was run.
    pub name: String,
    pub root: String,
    pub state: State,
    /// What the server said it can do.
    pub capabilities: Json,
    pub settings: Option<Json>,
    /// Files this server has been told about, each once.
    pub open: Vec<String>,
    /// Files opened before it was ready, waiting to be sent.
    pub queued: Vec<DocId>,
    /// What it is busy with, by progress token, in the order of the tokens.
    pub progress: Vec<(String, String)>,
    /// The last thing it said about itself.
    pub message: Option<String>,
    pub peer: Peer<Ask>,
}

/// One running server.
#[verifier::ext_equal]
pub ghost struct Serving {
    pub id: ServerId,
    pub name: Seq<char>,
    pub root: Seq<char>,
    pub state: Standing,
    pub capabilities: Value,
    pub settings: Option<Value>,
    pub open: Seq<Seq<char>>,
    pub queued: Seq<DocId>,
    pub progress: Seq<(Seq<char>, Seq<char>)>,
    pub message: Option<Seq<char>>,
    pub peer: Talk<Asked>,
}

/// What a value says that may not be there.
pub open spec fn maybe_json(j: Option<Json>) -> Option<Value> {
    match j {
        Some(j) => Some(j@),
        None => None,
    }
}

impl View for Server {
    type V = Serving;

    open spec fn view(&self) -> Serving {
        Serving {
            id: self.id,
            name: self.name@,
            root: self.root@,
            state: self.state@,
            capabilities: self.capabilities@,
            settings: maybe_json(self.settings),
            open: texts(self.open@),
            queued: self.queued@,
            progress: pairs(self.progress@),
            message: maybe_text(self.message),
            peer: self.peer@,
        }
    }
}

/// Paths without one.
pub open spec fn without(ps: Seq<Seq<char>>, path: Seq<char>) -> Seq<Seq<char>>
    decreases ps.len(),
{
    if ps.len() == 0 {
        ps
    } else if same_path(ps.last(), path) {
        without(ps.drop_last(), path)
    } else {
        without(ps.drop_last(), path).push(ps.last())
    }
}

/// Take a path out of others. Answers whether it was there.
pub fn take_out(ps: &mut Vec<String>, path: &str) -> (yes: bool)
    ensures
        texts(final(ps)@) == without(texts(old(ps)@), path@),
        yes == among(texts(old(ps)@), path@),
{
    let ghost was = texts(ps@);
    let mut kept: Vec<String> = Vec::new();
    let mut yes = false;
    let mut i: usize = 0;
    assert(texts(kept@) =~= without(was.take(0), path@));
    while i < ps.len()
        invariant
            i <= ps@.len(),
            was == texts(ps@),
            texts(kept@) == without(was.take(i as int), path@),
            yes == exists|k: int| 0 <= k < i && same_path(#[trigger] was[k], path@),
        decreases ps@.len() - i,
    {
        assert(was[i as int] == ps@[i as int]@);
        assert(was.take(i + 1).drop_last() =~= was.take(i as int));
        if is_same(ps[i].as_str(), path) {
            yes = true;
        } else {
            let ghost had = kept@;
            kept.push(ps[i].clone());
            assert(texts(kept@) =~= texts(had).push(was[i as int]));
        }
        i = i + 1;
    }
    assert(was.take(i as int) =~= was);
    *ps = kept;
    yes
}

// ---------------------------------------------------------------------------
// What a server can do
// ---------------------------------------------------------------------------

/// Whether a server said it can do something: it is there, and is neither
/// null nor false.
pub open spec fn offers(capabilities: Value, capability: Seq<char>) -> bool {
    match field(capabilities, capability) {
        None => false,
        Some(Value::Null) => false,
        Some(Value::Bool(b)) => b,
        _ => true,
    }
}

/// How a server wants to be told of an edit, by what it can do: a number, or
/// an object with one in it.
pub open spec fn sync_in(capabilities: Value) -> Sync {
    let said = match field(capabilities, "textDocumentSync"@) {
        Some(Value::Object(fs)) => int_in(field(Value::Object(fs), "change"@)),
        other => int_in(other),
    };
    if said == Some(0i64) {
        Sync::Off
    } else if said == Some(2i64) {
        Sync::Incremental
    } else {
        Sync::Full
    }
}

/// How a server wants to be told of an edit.
pub fn sync_of(capabilities: &Json) -> (s: Sync)
    ensures
        s == sync_in(capabilities@),
{
    let it = capabilities.get("textDocumentSync");
    let said: Option<i64> = match it {
        Some(j) => {
            proof {
                lemma_said(*j);
            }
            match j {
                Json::Object(_) => as_i64(j.get("change")),
                _ => as_i64(it),
            }
        },
        None => None,
    };
    match said {
        Some(n) => if n == 0 {
            Sync::Off
        } else if n == 2 {
            Sync::Incremental
        } else {
            Sync::Full
        },
        None => Sync::Full,
    }
}

/// The first characters of the texts among the first `n` of a list.
pub open spec fn first_chars(l: Seq<Value>, n: int) -> Seq<char>
    decreases n,
{
    if n <= 0 {
        Seq::empty()
    } else {
        let less = first_chars(l, n - 1);
        match l[n - 1] {
            Value::Text(s) => if s.len() > 0 { less.push(s[0]) } else { less },
            _ => less,
        }
    }
}

/// The characters that make something appear, by what a server can do.
pub open spec fn triggers_in(capabilities: Value, capability: Seq<char>) -> Seq<char> {
    match list_in(field_in(field(capabilities, capability), "triggerCharacters"@)) {
        Some(l) => first_chars(l, l.len() as int),
        None => Seq::empty(),
    }
}

/// A field of a value that may not be there.
pub fn get_in<'a>(j: Option<&'a Json>, key: &str) -> (r: Option<&'a Json>)
    ensures
        maybe(r) == field_in(maybe(j), key@),
{
    match j {
        Some(j) => j.get(key),
        None => None,
    }
}

/// The trigger characters under one of the capabilities that has them.
pub fn triggers_of(capabilities: &Json, capability: &str) -> (cs: Vec<char>)
    ensures
        cs@ == triggers_in(capabilities@, capability@),
{
    let mut cs: Vec<char> = Vec::new();
    if let Some(v) = as_array(get_in(capabilities.get(capability), "triggerCharacters")) {
        let ghost l = each(v@);
        let mut n: usize = 0;
        while n < v.len()
            invariant
                n <= v@.len(),
                l == each(v@),
                cs@ == first_chars(l, n as int),
            decreases v@.len() - n,
        {
            assert(l[n as int] == v@[n as int]@);
            if let Json::Text(s) = &v[n] {
                let cv = chars_of(s.as_str());
                if cv.len() > 0 {
                    cs.push(cv[0]);
                }
            }
            n = n + 1;
        }
    }
    cs
}

/// A value reached by the `n`th and further names.
pub open spec fn dug(v: Value, names: Seq<Seq<char>>, n: int) -> Value
    decreases names.len() - n,
{
    if n < 0 || n >= names.len() {
        v
    } else {
        match field(v, names[n]) {
            Some(next) => dug(next, names, n + 1),
            None => Value::Null,
        }
    }
}

/// Reach into a settings object by dotted section name.
pub fn dig(value: &Json, section: &str) -> (j: Json)
    ensures
        j@ == dug(value@, cut(section@, '.'), 0),
{
    let names = cut_at(&chars_of(section), '.');
    let ghost ns = deep(names@);
    let mut at: &Json = value;
    let mut n: usize = 0;
    while n < names.len()
        invariant
            n <= names@.len(),
            ns == deep(names@),
            ns == cut(section@, '.'),
            dug(value@, ns, 0) == dug(at@, ns, n as int),
        decreases names@.len() - n,
    {
        assert(ns[n as int] == names@[n as int]@);
        let name = text_of(&names[n]);
        match at.get(name.as_str()) {
            Some(next) => {
                at = next;
            },
            None => {
                return Json::Null;
            },
        }
        n = n + 1;
    }
    at.clone()
}

/// The title of some progress, with what it says of itself.
pub open spec fn progress_words(value: Option<Value>) -> Seq<char> {
    let title = match text_in(field_in(value, "title"@)) {
        Some(s) => s,
        None => "working"@,
    };
    let said = match text_in(field_in(value, "message"@)) {
        Some(detail) => if detail.len() > 0 { title + ": "@ + detail } else { title },
        None => title,
    };
    match nat_in(field_in(value, "percentage"@)) {
        Some(n) => said + " "@ + decimal(n as nat) + "%"@,
        None => said,
    }
}

/// The words for some progress.
pub fn say_progress(value: Option<&Json>) -> (s: String)
    ensures
        s@ == progress_words(maybe(value)),
{
    let mut s: String = match as_str(get_in(value, "title")) {
        Some(title) => title.to_owned(),
        None => "working".to_owned(),
    };
    if let Some(detail) = as_str(get_in(value, "message")) {
        let v = chars_of(detail);
        if v.len() > 0 {
            s.append(": ");
            s.append(detail);
        }
    }
    if let Some(n) = as_u64(get_in(value, "percentage")) {
        s.append(" ");
        write_number(&mut s, n);
        s.append("%");
    }
    s
}

/// The place of a token, or the end.
pub open spec fn token_place(ps: Seq<(Seq<char>, Seq<char>)>, token: Seq<char>, i: int) -> int
    decreases ps.len() - i,
{
    if 0 <= i < ps.len() && ps[i].0 != token { token_place(ps, token, i + 1) } else { i }
}

/// The place where a token goes that is not there.
pub open spec fn token_slot(ps: Seq<(Seq<char>, Seq<char>)>, token: Seq<char>, i: int) -> int
    decreases ps.len() - i,
{
    if 0 <= i < ps.len() && !precedes(token, ps[i].0) { token_slot(ps, token, i + 1) } else { i }
}

/// Progress with what one token says.
pub open spec fn with_token(
    ps: Seq<(Seq<char>, Seq<char>)>,
    token: Seq<char>,
    said: Seq<char>,
) -> Seq<(Seq<char>, Seq<char>)> {
    let at = token_place(ps, token, 0);
    if at < ps.len() {
        ps.update(at, (token, said))
    } else {
        ps.insert(token_slot(ps, token, 0), (token, said))
    }
}

/// Progress without one token.
pub open spec fn without_token(
    ps: Seq<(Seq<char>, Seq<char>)>,
    token: Seq<char>,
) -> Seq<(Seq<char>, Seq<char>)> {
    let at = token_place(ps, token, 0);
    if at < ps.len() { ps.remove(at) } else { ps }
}

fn find_token(ps: &Vec<(String, String)>, token: &str) -> (at: usize)
    ensures
        at == token_place(pairs(ps@), token@, 0),
        at <= ps@.len(),
        at < ps@.len() ==> pairs(ps@)[at as int].0 == token@,
{
    let ghost all = pairs(ps@);
    let mut at: usize = 0;
    while at < ps.len()
        invariant
            at <= ps@.len(),
            all == pairs(ps@),
            token_place(all, token@, 0) == token_place(all, token@, at as int),
        decreases ps@.len() - at,
    {
        assert(all[at as int] == (ps@[at as int].0@, ps@[at as int].1@));
        if same(ps[at].0.as_str(), token) {
            return at;
        }
        at = at + 1;
    }
    at
}

fn comes_before_token(a: &str, b: &str) -> (yes: bool)
    ensures
        yes == precedes(a@, b@),
{
    let x = chars_of(a);
    let y = chars_of(b);
    assert(x@.skip(0) =~= x@ && y@.skip(0) =~= y@);
    crate::strings::comes_before(&x, 0, &y, 0)
}

/// Say what a token is busy with.
pub fn set_token(ps: &mut Vec<(String, String)>, token: &str, said: String)
    ensures
        pairs(final(ps)@) == with_token(pairs(old(ps)@), token@, said@),
{
    let ghost had = pairs(ps@);
    let ghost is = said@;
    let at = find_token(ps, token);
    assert(had.len() == ps@.len());
    if at < ps.len() {
        ps.set(at, (token.to_owned(), said));
        assert(pairs(ps@) =~= had.update(at as int, (token@, is)));
        return;
    }
    let mut slot: usize = 0;
    while slot < ps.len() && !comes_before_token(token, ps[slot].0.as_str())
        invariant
            slot <= ps@.len(),
            had == pairs(ps@),
            token_slot(had, token@, 0) == token_slot(had, token@, slot as int),
        decreases ps@.len() - slot,
    {
        assert(had[slot as int] == (ps@[slot as int].0@, ps@[slot as int].1@));
        slot = slot + 1;
    }
    if slot < ps.len() {
        assert(had[slot as int] == (ps@[slot as int].0@, ps@[slot as int].1@));
    }
    ps.insert(slot, (token.to_owned(), said));
    assert(pairs(ps@) =~= had.insert(slot as int, (token@, is)));
}

/// Forget a token.
pub fn drop_token(ps: &mut Vec<(String, String)>, token: &str)
    ensures
        pairs(final(ps)@) == without_token(pairs(old(ps)@), token@),
{
    let ghost had = pairs(ps@);
    let at = find_token(ps, token);
    assert(had.len() == ps@.len());
    if at < ps.len() {
        ps.remove(at);
        assert(pairs(ps@) =~= had.remove(at as int));
    }
}

/// A server that has been told something.
pub open spec fn told(s: Serving, method: Seq<char>, params: Value) -> Serving {
    Serving { peer: spoken(s.peer, Sent::Notify(method, params)), ..s }
}

/// A server that has been asked something.
pub open spec fn questioned(s: Serving, method: Seq<char>, params: Value, ask: Asked) -> Serving {
    Serving { peer: asked(s.peer, method, params, ask), ..s }
}

impl Server {
    /// Whether it is ready.
    pub fn is_ready(&self) -> (yes: bool)
        ensures
            yes == self@.state is Ready,
    {
        matches!(self.state, State::Ready)
    }

    /// What it is doing, if anything, in a few words.
    pub fn busy_with(&self) -> (r: Option<&str>)
        ensures
            match r {
                Some(s) => self@.progress.len() > 0 && s@ == self@.progress[0].1,
                None => self@.progress.len() == 0,
            },
    {
        assert(pairs(self.progress@).len() == self.progress@.len());
        if self.progress.len() > 0 {
            assert(pairs(self.progress@)[0].1 == self.progress@[0].1@);
            Some(self.progress[0].1.as_str())
        } else {
            None
        }
    }

    /// Whether it said it can do something.
    pub fn can(&self, capability: &str) -> (yes: bool)
        ensures
            yes == offers(self@.capabilities, capability@),
    {
        match self.capabilities.get(capability) {
            None => false,
            Some(Json::Null) => false,
            Some(Json::Bool(b)) => *b,
            Some(j) => {
                proof {
                    lemma_said(*j);
                }
                true
            },
        }
    }

    /// How it wants to be told of an edit.
    pub fn sync(&self) -> (s: Sync)
        ensures
            s == sync_in(self@.capabilities),
    {
        sync_of(&self.capabilities)
    }

    /// The characters that should make completions appear on their own.
    pub fn completion_triggers(&self) -> (cs: Vec<char>)
        ensures
            cs@ == triggers_in(self@.capabilities, "completionProvider"@),
    {
        triggers_of(&self.capabilities, "completionProvider")
    }

    /// The characters that should make a signature hint appear.
    pub fn signature_triggers(&self) -> (cs: Vec<char>)
        ensures
            cs@ == triggers_in(self@.capabilities, "signatureHelpProvider"@),
    {
        triggers_of(&self.capabilities, "signatureHelpProvider")
    }

    /// Tell it something.
    pub fn notify(&mut self, method: &str, params: Json)
        ensures
            final(self)@ == told(old(self)@, method@, params@),
    {
        let ghost was = self@;
        self.peer.notify(method, params);
        assert(self@ =~= told(was, method@, params@));
    }

    /// Ask it something.
    pub fn request(&mut self, method: &str, params: Json, ask: Ask)
        ensures
            final(self)@ == questioned(old(self)@, method@, params@, ask@),
    {
        let ghost was = self@;
        self.peer.request(method, params, ask);
        assert(self@ =~= questioned(was, method@, params@, ask@));
    }

    /// Answer it.
    pub fn answer(&mut self, id: Json, result: Json)
        ensures
            final(self)@ == (Serving {
                peer: spoken(old(self)@.peer, Sent::Answer(id@, result@)),
                ..old(self)@
            }),
    {
        let ghost was = self@;
        self.peer.answer(id, result);
        assert(self@ =~= (Serving {
            peer: spoken(was.peer, Sent::Answer(id@, result@)),
            ..was
        }));
    }

    /// Take back what an answer was for. Each is handed out once.
    pub fn claim(&mut self, id: i64) -> (r: Option<Ask>)
        ensures
            ({
                let s = old(self)@;
                let at = waiting_place(s.peer.waiting, id, 0);
                match r {
                    Some(ask) => at < s.peer.waiting.len() && ask@ == s.peer.waiting[at].1
                        && final(self)@ == (Serving { peer: claimed(s.peer, at), ..s }),
                    None => at >= s.peer.waiting.len() && final(self)@ == s,
                }
            }),
    {
        let ghost was = self@;
        let r = self.peer.claim(id);
        assert(self@ =~= (Serving { peer: self.peer@, ..was }));
        r
    }

    /// Take note that what was sent could not be.
    pub fn note_failure(&mut self, why: String)
        ensures
            final(self)@ == (Serving { state: Standing::Dead(why@), ..old(self)@ }),
    {
        let ghost was = self@;
        self.state = State::Dead(why);
        assert(self@ =~= (Serving { state: Standing::Dead(why@), ..was }));
    }
}

} // verus!
