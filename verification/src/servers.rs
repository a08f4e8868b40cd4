//! Every language server there is: which of them a question goes to, and what
//! each is told.
use vstd::prelude::*;

use crate::attach::{merge, merged};
use crate::chars::{chars_of, same};
use crate::client::{capabilities, client_part, nothing, only, say_only};
use crate::diagnose::{place, point_value, say_point};
use crate::doc::{DocId, Document};
use crate::json::{
    add_field, add_item, as_str, each, field, field_in, fields, int_value, lemma_said, list, number,
    object, string, Json, Value,
};
use crate::lsp::{
    get_in, goto_capability, goto_method, maybe_json, offers, questioned, told, Ask, Asked, Config,
    Goto, Server, ServerId, Serving, Standing, State,
};
use crate::path::{among, file_name, is_among, is_same, last_name, same_path};
use crate::rpc::{silence, spoken, views, Peer, Sending, Sent};
use crate::strings::{begins, contains, maybe_text, texts};
use crate::uri::{uri, uri_of};
use crate::vars::pairs;

verus! {

// ---------------------------------------------------------------------------
// What is kept
// ---------------------------------------------------------------------------

/// Every server there is.
#[derive(Debug)]
pub struct Servers {
    pub servers: Vec<Server>,
    /// The command and the project of servers that could not be started, so
    /// that they are not tried again on every keystroke.
    pub failed: Vec<(String, String)>,
    /// Things worth telling somebody.
    pub problems: Vec<String>,
    /// Which environment to use for a project, where somebody has said so.
    pub environments: Vec<(String, String)>,
}

/// The place of a server, or the end.
pub open spec fn server_place(ss: Seq<Serving>, id: ServerId, i: int) -> int
    decreases ss.len() - i,
{
    if 0 <= i < ss.len() && ss[i].id != id { server_place(ss, id, i + 1) } else { i }
}

/// Whether a server handles a file: it is ready, and has been told about it.
pub open spec fn handles(s: Serving, path: Seq<char>) -> bool {
    s.state is Ready && among(s.open, path)
}

/// The servers among the first `n` that handle a file.
pub open spec fn attached(ss: Seq<Serving>, path: Seq<char>, n: int) -> Seq<ServerId>
    decreases n,
{
    if n <= 0 {
        Seq::empty()
    } else if handles(ss[n - 1], path) {
        attached(ss, path, n - 1).push(ss[n - 1].id)
    } else {
        attached(ss, path, n - 1)
    }
}

/// The servers that handle a document.
pub open spec fn servers_for(ss: Seq<Serving>, path: Option<Seq<char>>) -> Seq<ServerId> {
    match path {
        Some(path) => attached(ss, path, ss.len() as int),
        None => Seq::empty(),
    }
}

/// Whether a server can do something.
pub open spec fn able(ss: Seq<Serving>, id: ServerId, capability: Seq<char>) -> bool {
    let at = server_place(ss, id, 0);
    at < ss.len() && offers(ss[at].capabilities, capability)
}

/// The first of the servers from `i` on that can do something.
pub open spec fn first_able(
    ss: Seq<Serving>,
    ids: Seq<ServerId>,
    capability: Seq<char>,
    i: int,
) -> Option<ServerId>
    decreases ids.len() - i,
{
    if i < 0 || i >= ids.len() {
        None
    } else if able(ss, ids[i], capability) {
        Some(ids[i])
    } else {
        first_able(ss, ids, capability, i + 1)
    }
}

/// The servers among the first `n` that can do something.
pub open spec fn all_able(
    ss: Seq<Serving>,
    ids: Seq<ServerId>,
    capability: Seq<char>,
    n: int,
) -> Seq<ServerId>
    decreases n,
{
    if n <= 0 {
        Seq::empty()
    } else if able(ss, ids[n - 1], capability) {
        all_able(ss, ids, capability, n - 1).push(ids[n - 1])
    } else {
        all_able(ss, ids, capability, n - 1)
    }
}

/// The server to ask a particular question about a document.
pub open spec fn answerer(
    ss: Seq<Serving>,
    path: Option<Seq<char>>,
    capability: Seq<char>,
) -> Option<ServerId> {
    first_able(ss, servers_for(ss, path), capability, 0)
}

/// Servers with one of them asked something.
pub open spec fn with_question(
    ss: Seq<Serving>,
    id: ServerId,
    method: Seq<char>,
    params: Value,
    ask: Asked,
) -> Seq<Serving> {
    let at = server_place(ss, id, 0);
    if at < ss.len() { ss.update(at, questioned(ss[at], method, params, ask)) } else { ss }
}

proof fn lemma_first_able(
    ss: Seq<Serving>,
    ids: Seq<ServerId>,
    capability: Seq<char>,
    i: int,
)
    ensures
        match first_able(ss, ids, capability, i) {
            Some(id) => able(ss, id, capability),
            None => true,
        },
    decreases ids.len() - i,
{
    if 0 <= i < ids.len() && !able(ss, ids[i], capability) {
        lemma_first_able(ss, ids, capability, i + 1);
    }
}

/// A question goes to a server that said it can answer it.
pub proof fn law_a_question_goes_to_one_that_can_answer(
    ss: Seq<Serving>,
    path: Option<Seq<char>>,
    capability: Seq<char>,
)
    ensures
        match answerer(ss, path, capability) {
            Some(id) => able(ss, id, capability),
            None => forall|i: int|
                0 <= i < servers_for(ss, path).len() ==> !able(
                    ss,
                    #[trigger] servers_for(ss, path)[i],
                    capability,
                ),
        },
{
    let ids = servers_for(ss, path);
    lemma_first_able(ss, ids, capability, 0);
    if first_able(ss, ids, capability, 0) is None {
        assert forall|i: int| 0 <= i < ids.len() implies !able(ss, #[trigger] ids[i], capability) by {
            lemma_none_able(ss, ids, capability, 0, i);
        }
    }
}

proof fn lemma_none_able(
    ss: Seq<Serving>,
    ids: Seq<ServerId>,
    capability: Seq<char>,
    i: int,
    k: int,
)
    requires
        0 <= i <= k < ids.len(),
        first_able(ss, ids, capability, i) is None,
    ensures
        !able(ss, ids[k], capability),
    decreases k - i,
{
    if i < k {
        lemma_none_able(ss, ids, capability, i + 1, k);
    }
}

/// What is kept of the servers.
pub open spec fn pool(s: Servers) -> Seq<Serving> {
    views(s.servers@)
}

/// Whether only the servers themselves differ.
pub open spec fn rest_same(a: Servers, b: Servers) -> bool {
    a.failed == b.failed && a.problems == b.problems && a.environments == b.environments
}

impl Servers {
    /// No server yet.
    pub fn new() -> (s: Servers)
        ensures
            pool(s).len() == 0,
            s.failed@.len() == 0,
            s.problems@.len() == 0,
            s.environments@.len() == 0,
    {
        Servers {
            servers: Vec::new(),
            failed: Vec::new(),
            problems: Vec::new(),
            environments: Vec::new(),
        }
    }

    /// All of them.
    pub fn all(&self) -> (v: &Vec<Server>)
        ensures
            *v == self.servers,
    {
        &self.servers
    }

    /// The place of one of them in the list, or its end.
    pub(crate) fn find(&self, id: ServerId) -> (at: usize)
        ensures
            at == server_place(pool(*self), id, 0),
            at <= self.servers@.len(),
            at < self.servers@.len() ==> pool(*self)[at as int] == self.servers@[at as int]@,
    {
        let ghost ss = pool(*self);
        let mut at: usize = 0;
        while at < self.servers.len() && self.servers[at].id != id
            invariant
                at <= self.servers@.len(),
                ss == pool(*self),
                server_place(ss, id, 0) == server_place(ss, id, at as int),
            decreases self.servers@.len() - at,
        {
            assert(ss[at as int] == self.servers@[at as int]@);
            at = at + 1;
        }
        if at < self.servers.len() {
            assert(ss[at as int] == self.servers@[at as int]@);
        }
        at
    }

    /// One of them.
    pub fn get(&self, id: ServerId) -> (r: Option<&Server>)
        ensures
            ({
                let at = server_place(pool(*self), id, 0);
                match r {
                    Some(s) => at < pool(*self).len() && s@ == pool(*self)[at],
                    None => at >= pool(*self).len(),
                }
            }),
    {
        let at = self.find(id);
        if at < self.servers.len() {
            Some(&self.servers[at])
        } else {
            None
        }
    }

    /// The servers that should be handling a document.
    pub fn for_doc(&self, doc: &Document) -> (ids: Vec<ServerId>)
        ensures
            ids@ == servers_for(pool(*self), maybe_text(doc.path)),
    {
        let mut ids: Vec<ServerId> = Vec::new();
        if let Some(path) = &doc.path {
            let ghost ss = pool(*self);
            let mut n: usize = 0;
            while n < self.servers.len()
                invariant
                    n <= self.servers@.len(),
                    ss == pool(*self),
                    ids@ == attached(ss, path@, n as int),
                decreases self.servers@.len() - n,
            {
                assert(ss[n as int] == self.servers@[n as int]@);
                if self.servers[n].is_ready() && is_among(&self.servers[n].open, path.as_str()) {
                    ids.push(self.servers[n].id);
                }
                n = n + 1;
            }
        }
        ids
    }

    /// The one server to ask a question of that names no capability: the
    /// first.
    pub fn primary_for(&self, doc: &Document) -> (r: Option<ServerId>)
        ensures
            ({
                let ids = servers_for(pool(*self), maybe_text(doc.path));
                r == if ids.len() > 0 { Some(ids[0]) } else { None }
            }),
    {
        let ids = self.for_doc(doc);
        if ids.len() > 0 {
            Some(ids[0])
        } else {
            None
        }
    }

    /// Whether one of them can do something.
    pub(crate) fn is_able(&self, id: ServerId, capability: &str) -> (yes: bool)
        ensures
            yes == able(pool(*self), id, capability@),
    {
        let at = self.find(id);
        at < self.servers.len() && self.servers[at].can(capability)
    }

    /// The server to ask a particular question of: the first one attached to
    /// the file that says it can answer it.
    pub fn who_can(&self, doc: &Document, capability: &str) -> (r: Option<ServerId>)
        ensures
            r == answerer(pool(*self), maybe_text(doc.path), capability@),
    {
        let ids = self.for_doc(doc);
        let ghost ss = pool(*self);
        let mut i: usize = 0;
        while i < ids.len()
            invariant
                i <= ids@.len(),
                ss == pool(*self),
                first_able(ss, ids@, capability@, 0) == first_able(ss, ids@, capability@, i as int),
                answerer(ss, maybe_text(doc.path), capability@) == first_able(
                    ss,
                    ids@,
                    capability@,
                    0,
                ),
            decreases ids@.len() - i,
        {
            if self.is_able(ids[i], capability) {
                return Some(ids[i]);
            }
            i = i + 1;
        }
        None
    }

    /// Every server attached to the file that can answer a question.
    pub fn who_all_can(&self, doc: &Document, capability: &str) -> (r: Vec<ServerId>)
        ensures
            ({
                let ids = servers_for(pool(*self), maybe_text(doc.path));
                r@ == all_able(pool(*self), ids, capability@, ids.len() as int)
            }),
    {
        let ids = self.for_doc(doc);
        let ghost ss = pool(*self);
        let mut r: Vec<ServerId> = Vec::new();
        let mut n: usize = 0;
        while n < ids.len()
            invariant
                n <= ids@.len(),
                ss == pool(*self),
                r@ == all_able(ss, ids@, capability@, n as int),
            decreases ids@.len() - n,
        {
            if self.is_able(ids[n], capability) {
                r.push(ids[n]);
            }
            n = n + 1;
        }
        r
    }

    /// Whether anything attached to the file can do something at all.
    pub fn can(&self, doc: &Document, capability: &str) -> (yes: bool)
        ensures
            yes == answerer(pool(*self), maybe_text(doc.path), capability@) is Some,
    {
        self.who_can(doc, capability).is_some()
    }

    /// Ask one of them something. Answers whether it is there.
    pub(crate) fn ask(&mut self, id: ServerId, method: &str, params: Json, ask: Ask) -> (yes: bool)
        ensures
            pool(*final(self)) == with_question(pool(*old(self)), id, method@, params@, ask@),
            yes == (server_place(pool(*old(self)), id, 0) < pool(*old(self)).len()),
            rest_same(*final(self), *old(self)),
    {
        let ghost ss = pool(*self);
        let at = self.find(id);
        if at >= self.servers.len() {
            return false;
        }
        let ghost was = self.servers@;
        let ghost p = params@;
        let ghost a = ask@;
        self.servers[at].request(method, params, ask);
        assert(pool(*self) =~= ss.update(at as int, questioned(ss[at as int], method@, p, a)));
        true
    }
}

// ---------------------------------------------------------------------------
// Questions about a place
// ---------------------------------------------------------------------------

/// A file, as a server is told which.
pub open spec fn file_value(path: Seq<char>) -> Value {
    only("uri"@, Value::Text(uri(path)))
}

/// A file, as a server is told which.
pub fn say_file(path: &str) -> (j: Json)
    ensures
        j@ == file_value(path@),
{
    let address = uri_of(path);
    say_only("uri", string(address.as_str()))
}

/// What is said in a question about a place in a file.
pub open spec fn at_place(path: Seq<char>, p: (int, int), extra: Value) -> Value {
    let base = seq![("textDocument"@, file_value(path)), ("position"@, point_value(p))];
    match extra {
        Value::Object(o) => Value::Object(merged(base, o, o.len() as int)),
        _ => Value::Object(base),
    }
}

fn say_place(doc: &Document, path: &str, at: usize, extra: &Json) -> (j: Json)
    ensures
        j@ == at_place(path@, place(doc.content(), at as int), extra@),
{
    let ghost p = place(doc.content(), at as int);
    let point = doc.lsp_point_at(at);
    let mut fs: Vec<(String, Json)> = Vec::new();
    add_field(&mut fs, "textDocument", say_file(path));
    add_field(&mut fs, "position", say_point(point, Ghost(p)));
    let mut j = object(fs);
    let ghost base = seq![("textDocument"@, file_value(path@)), ("position"@, point_value(p))];
    assert(j@->Object_0 =~= base);
    proof {
        lemma_said(*extra);
    }
    if let Json::Object(_) = extra {
        merge(&mut j, extra);
    }
    j
}

/// The question with which suggestions are asked for.
pub open spec fn completion_context(triggered: Option<char>) -> Value {
    only(
        "context"@,
        match triggered {
            Some(c) => Value::Object(
                seq![
                    ("triggerKind"@, Value::Natural(2)),
                    ("triggerCharacter"@, Value::Text(seq![c])),
                ],
            ),
            None => only("triggerKind"@, Value::Natural(1)),
        },
    )
}

/// Servers after a question about a place: the one that can answer it has been
/// asked.
pub open spec fn placed_question(
    ss: Seq<Serving>,
    doc: Document,
    at: int,
    method: Seq<char>,
    capability: Seq<char>,
    ask: Asked,
    extra: Value,
) -> Seq<Serving> {
    match (answerer(ss, maybe_text(doc.path), capability), doc.path) {
        (Some(id), Some(path)) => with_question(
            ss,
            id,
            method,
            at_place(path@, place(doc.content(), at), extra),
            ask,
        ),
        _ => ss,
    }
}

/// Servers after a question about a document.
pub open spec fn file_question(
    ss: Seq<Serving>,
    doc: Document,
    method: Seq<char>,
    capability: Seq<char>,
    params: Value,
    ask: Asked,
) -> Seq<Serving> {
    match (answerer(ss, maybe_text(doc.path), capability), doc.path) {
        (Some(id), Some(_)) => with_question(ss, id, method, params, ask),
        _ => ss,
    }
}

/// What is said when a file is to be laid out.
pub open spec fn format_value(path: Seq<char>, tab_width: usize, spaces: bool) -> Value {
    Value::Object(
        seq![
            ("textDocument"@, file_value(path)),
            (
                "options"@,
                Value::Object(
                    seq![
                        ("tabSize"@, Value::Natural(tab_width as u64)),
                        ("insertSpaces"@, Value::Bool(spaces)),
                        ("trimTrailingWhitespace"@, Value::Bool(true)),
                        ("insertFinalNewline"@, Value::Bool(true)),
                    ],
                ),
            ),
        ],
    )
}

impl Servers {
    /// Ask about a position in a file. The question goes to the first server
    /// that can answer it; which one that was is answered.
    pub fn ask_at(
        &mut self,
        doc: &Document,
        at: usize,
        method: &str,
        capability: &str,
        ask: Ask,
        extra: &Json,
    ) -> (r: Option<ServerId>)
        ensures
            r == answerer(pool(*old(self)), maybe_text(doc.path), capability@),
            pool(*final(self)) == placed_question(
                pool(*old(self)),
                *doc,
                at as int,
                method@,
                capability@,
                ask@,
                extra@,
            ),
            rest_same(*final(self), *old(self)),
    {
        let path = match &doc.path {
            Some(path) => path,
            None => {
                return None;
            },
        };
        match self.who_can(doc, capability) {
            Some(id) => {
                proof {
                    lemma_first_able(
                        pool(*self),
                        servers_for(pool(*self), maybe_text(doc.path)),
                        capability@,
                        0,
                    );
                }
                let params = say_place(doc, path.as_str(), at, extra);
                self.ask(id, method, params, ask);
                Some(id)
            },
            None => None,
        }
    }

    /// Ask for suggestions at a position.
    pub fn completion(&mut self, doc: &Document, at: usize, triggered: Option<char>) -> (r: Option<
        ServerId,
    >)
        ensures
            r == answerer(pool(*old(self)), maybe_text(doc.path), "completionProvider"@),
            pool(*final(self)) == placed_question(
                pool(*old(self)),
                *doc,
                at as int,
                "textDocument/completion"@,
                "completionProvider"@,
                Asked::Completion(doc.id, at, doc.version),
                completion_context(triggered),
            ),
            rest_same(*final(self), *old(self)),
    {
        let inner = match triggered {
            Some(c) => {
                let mut s: String = String::new();
                s.push(c);
                assert(s@ =~= seq![c]);
                let mut fs: Vec<(String, Json)> = Vec::new();
                add_field(&mut fs, "triggerKind", Json::Natural(2));
                add_field(&mut fs, "triggerCharacter", string(s.as_str()));
                let j = object(fs);
                assert(j@->Object_0 =~= seq![
                    ("triggerKind"@, Value::Natural(2)),
                    ("triggerCharacter"@, Value::Text(seq![c])),
                ]);
                j
            },
            None => say_only("triggerKind", Json::Natural(1)),
        };
        let extra = say_only("context", inner);
        let ask = Ask::Completion { doc: doc.id, at, version: doc.version };
        self.ask_at(doc, at, "textDocument/completion", "completionProvider", ask, &extra)
    }

    /// Ask what stands at a position.
    pub fn hover(&mut self, doc: &Document, at: usize) -> (r: Option<ServerId>)
        ensures
            r == answerer(pool(*old(self)), maybe_text(doc.path), "hoverProvider"@),
            pool(*final(self)) == placed_question(
                pool(*old(self)),
                *doc,
                at as int,
                "textDocument/hover"@,
                "hoverProvider"@,
                Asked::Hover(doc.id, at),
                Value::Object(Seq::empty()),
            ),
            rest_same(*final(self), *old(self)),
    {
        let ask = Ask::Hover { doc: doc.id, at };
        self.ask_at(doc, at, "textDocument/hover", "hoverProvider", ask, &nothing())
    }

    /// Ask where something is.
    pub fn goto(&mut self, doc: &Document, at: usize, what: Goto) -> (r: Option<ServerId>)
        ensures
            r == answerer(pool(*old(self)), maybe_text(doc.path), goto_capability(what)),
            pool(*final(self)) == placed_question(
                pool(*old(self)),
                *doc,
                at as int,
                goto_method(what),
                goto_capability(what),
                Asked::Goto(doc.id, what, None),
                Value::Object(Seq::empty()),
            ),
            rest_same(*final(self), *old(self)),
    {
        self.goto_or(doc, at, what, None)
    }

    /// Ask where something is, with a name to search the project for if there
    /// is no answer.
    pub fn goto_or(
        &mut self,
        doc: &Document,
        at: usize,
        what: Goto,
        fallback: Option<String>,
    ) -> (r: Option<ServerId>)
        ensures
            r == answerer(pool(*old(self)), maybe_text(doc.path), goto_capability(what)),
            pool(*final(self)) == placed_question(
                pool(*old(self)),
                *doc,
                at as int,
                goto_method(what),
                goto_capability(what),
                Asked::Goto(doc.id, what, maybe_text(fallback)),
                Value::Object(Seq::empty()),
            ),
            rest_same(*final(self), *old(self)),
    {
        let capability: &'static str = match what {
            Goto::Definition => "definitionProvider",
            Goto::Type => "typeDefinitionProvider",
            Goto::Implementation => "implementationProvider",
        };
        let ask = Ask::Goto { doc: doc.id, what, fallback };
        self.ask_at(doc, at, what.method(), capability, ask, &nothing())
    }

    /// Ask where something is used.
    pub fn references(&mut self, doc: &Document, at: usize) -> (r: Option<ServerId>)
        ensures
            r == answerer(pool(*old(self)), maybe_text(doc.path), "referencesProvider"@),
            pool(*final(self)) == placed_question(
                pool(*old(self)),
                *doc,
                at as int,
                "textDocument/references"@,
                "referencesProvider"@,
                Asked::References,
                only("context"@, only("includeDeclaration"@, Value::Bool(false))),
            ),
            rest_same(*final(self), *old(self)),
    {
        let extra = say_only("context", say_only("includeDeclaration", Json::Bool(false)));
        self.ask_at(
            doc,
            at,
            "textDocument/references",
            "referencesProvider",
            Ask::References,
            &extra,
        )
    }

    /// Ask what the call at a position takes.
    pub fn signature(&mut self, doc: &Document, at: usize) -> (r: Option<ServerId>)
        ensures
            r == answerer(pool(*old(self)), maybe_text(doc.path), "signatureHelpProvider"@),
            pool(*final(self)) == placed_question(
                pool(*old(self)),
                *doc,
                at as int,
                "textDocument/signatureHelp"@,
                "signatureHelpProvider"@,
                Asked::Signature(doc.id, at),
                Value::Object(Seq::empty()),
            ),
            rest_same(*final(self), *old(self)),
    {
        let ask = Ask::Signature { doc: doc.id, at };
        self.ask_at(
            doc,
            at,
            "textDocument/signatureHelp",
            "signatureHelpProvider",
            ask,
            &nothing(),
        )
    }

    /// Ask for something to be called otherwise.
    pub fn rename(&mut self, doc: &Document, at: usize, to: &str) -> (r: Option<ServerId>)
        ensures
            r == answerer(pool(*old(self)), maybe_text(doc.path), "renameProvider"@),
            pool(*final(self)) == placed_question(
                pool(*old(self)),
                *doc,
                at as int,
                "textDocument/rename"@,
                "renameProvider"@,
                Asked::Rename(to@),
                only("newName"@, Value::Text(to@)),
            ),
            rest_same(*final(self), *old(self)),
    {
        let ask = Ask::Rename { to: to.to_owned() };
        let extra = say_only("newName", string(to));
        self.ask_at(doc, at, "textDocument/rename", "renameProvider", ask, &extra)
    }

    fn ask_about(
        &mut self,
        doc: &Document,
        method: &str,
        capability: &str,
        params: Json,
        ask: Ask,
    ) -> (r: Option<ServerId>)
        requires
            doc.path is Some,
        ensures
            r == answerer(pool(*old(self)), maybe_text(doc.path), capability@),
            pool(*final(self)) == file_question(
                pool(*old(self)),
                *doc,
                method@,
                capability@,
                params@,
                ask@,
            ),
            rest_same(*final(self), *old(self)),
    {
        match self.who_can(doc, capability) {
            Some(id) => {
                self.ask(id, method, params, ask);
                Some(id)
            },
            None => None,
        }
    }

    /// Ask for a file to be laid out.
    pub fn format(&mut self, doc: &Document, tab_width: usize, spaces: bool) -> (r: Option<ServerId>)
        ensures
            r == answerer(
                pool(*old(self)),
                maybe_text(doc.path),
                "documentFormattingProvider"@,
            ),
            pool(*final(self)) == match doc.path {
                Some(path) => file_question(
                    pool(*old(self)),
                    *doc,
                    "textDocument/formatting"@,
                    "documentFormattingProvider"@,
                    format_value(path@, tab_width, spaces),
                    Asked::Format(doc.id, doc.version),
                ),
                None => pool(*old(self)),
            },
            rest_same(*final(self), *old(self)),
    {
        let path = match &doc.path {
            Some(path) => path,
            None => {
                return None;
            },
        };
        let mut options: Vec<(String, Json)> = Vec::new();
        add_field(&mut options, "tabSize", Json::Natural(tab_width as u64));
        add_field(&mut options, "insertSpaces", Json::Bool(spaces));
        add_field(&mut options, "trimTrailingWhitespace", Json::Bool(true));
        add_field(&mut options, "insertFinalNewline", Json::Bool(true));
        let ghost inner = fields(options@);
        let mut fs: Vec<(String, Json)> = Vec::new();
        add_field(&mut fs, "textDocument", say_file(path.as_str()));
        add_field(&mut fs, "options", object(options));
        let params = object(fs);
        proof {
            let want = format_value(path@, tab_width, spaces);
            assert(inner =~= want->Object_0[1].1->Object_0);
            assert(params@->Object_0 =~= want->Object_0);
        }
        let ask = Ask::Format { doc: doc.id, version: doc.version };
        self.ask_about(doc, "textDocument/formatting", "documentFormattingProvider", params, ask)
    }

    /// Ask what a file defines.
    pub fn symbols(&mut self, doc: &Document) -> (r: Option<ServerId>)
        ensures
            r == answerer(pool(*old(self)), maybe_text(doc.path), "documentSymbolProvider"@),
            pool(*final(self)) == match doc.path {
                Some(path) => file_question(
                    pool(*old(self)),
                    *doc,
                    "textDocument/documentSymbol"@,
                    "documentSymbolProvider"@,
                    only("textDocument"@, file_value(path@)),
                    Asked::Symbols(doc.id),
                ),
                None => pool(*old(self)),
            },
            rest_same(*final(self), *old(self)),
    {
        let path = match &doc.path {
            Some(path) => path,
            None => {
                return None;
            },
        };
        let params = say_only("textDocument", say_file(path.as_str()));
        let ask = Ask::Symbols { doc: doc.id };
        self.ask_about(doc, "textDocument/documentSymbol", "documentSymbolProvider", params, ask)
    }

    /// Search the project for a name.
    pub fn workspace_symbols(&mut self, doc: &Document, query: &str, going: Option<String>) -> (r:
        Option<ServerId>)
        ensures
            r == answerer(pool(*old(self)), maybe_text(doc.path), "workspaceSymbolProvider"@),
            pool(*final(self)) == file_question(
                pool(*old(self)),
                *doc,
                "workspace/symbol"@,
                "workspaceSymbolProvider"@,
                only("query"@, Value::Text(query@)),
                Asked::WorkspaceSymbols(maybe_text(going)),
            ),
            rest_same(*final(self), *old(self)),
    {
        if doc.path.is_none() {
            return None;
        }
        let params = say_only("query", string(query));
        let ask = Ask::WorkspaceSymbols { going };
        self.ask_about(doc, "workspace/symbol", "workspaceSymbolProvider", params, ask)
    }

    /// Ask for the text of a class that is not in a file.
    pub fn class_file(&mut self, doc: &Document, address: &str, line: usize, column: usize) -> (r:
        Option<ServerId>)
        ensures
            ({
                let ss = pool(*old(self));
                let ids = servers_for(ss, maybe_text(doc.path));
                let asks = "jdt://"@.is_prefix_of(address@) && ids.len() > 0 && server_place(
                    ss,
                    ids[0],
                    0,
                ) < ss.len();
                &&& r == if asks { Some(ids[0]) } else { None }
                &&& pool(*final(self)) == if asks {
                    with_question(
                        ss,
                        ids[0],
                        "java/classFileContents"@,
                        only("uri"@, Value::Text(address@)),
                        Asked::ClassFile(address@, line, column),
                    )
                } else {
                    ss
                }
            }),
            rest_same(*final(self), *old(self)),
    {
        if !begins(&chars_of(address), "jdt://") {
            return None;
        }
        match self.primary_for(doc) {
            Some(id) => {
                let params = say_only("uri", string(address));
                let ask = Ask::ClassFile { uri: address.to_owned(), line, column };
                if self.ask(id, "java/classFileContents", params, ask) {
                    Some(id)
                } else {
                    None
                }
            },
            None => None,
        }
    }

    /// Run a command the server offered.
    pub fn execute(&mut self, id: ServerId, command: &Json)
        ensures
            pool(*final(self)) == with_question(
                pool(*old(self)),
                id,
                "workspace/executeCommand"@,
                command_value(command@),
                Asked::Command,
            ),
            rest_same(*final(self), *old(self)),
    {
        let name = match command.get("command") {
            Some(j) => j.clone(),
            None => Json::Null,
        };
        let arguments = match command.get("arguments") {
            Some(j) => j.clone(),
            None => {
                let j = list(Vec::new());
                assert(j@->List_0 =~= Seq::<Value>::empty());
                j
            },
        };
        let mut fs: Vec<(String, Json)> = Vec::new();
        add_field(&mut fs, "command", name);
        add_field(&mut fs, "arguments", arguments);
        let params = object(fs);
        assert(params@->Object_0 =~= command_value(command@)->Object_0);
        self.ask(id, "workspace/executeCommand", params, Ask::Command);
    }

    /// Ask the server to fill in a code action it sent in outline, where it
    /// can.
    pub fn resolve_action(&mut self, id: ServerId, action: &Json) -> (yes: bool)
        ensures
            yes == resolves(pool(*old(self)), id, "codeActionProvider"@),
            pool(*final(self)) == if yes {
                with_question(
                    pool(*old(self)),
                    id,
                    "codeAction/resolve"@,
                    action@,
                    Asked::ResolveAction,
                )
            } else {
                pool(*old(self))
            },
            rest_same(*final(self), *old(self)),
    {
        if !self.can_resolve(id, "codeActionProvider") {
            return false;
        }
        self.ask(id, "codeAction/resolve", action.clone(), Ask::ResolveAction)
    }

    /// Ask the server to fill in a suggestion it sent in outline, where it
    /// can.
    pub fn resolve_completion(&mut self, id: ServerId, doc: DocId, index: usize, item: &Json) -> (yes:
        bool)
        ensures
            yes == resolves(pool(*old(self)), id, "completionProvider"@),
            pool(*final(self)) == if yes {
                with_question(
                    pool(*old(self)),
                    id,
                    "completionItem/resolve"@,
                    item@,
                    Asked::ResolveCompletion(doc, index),
                )
            } else {
                pool(*old(self))
            },
            rest_same(*final(self), *old(self)),
    {
        if !self.can_resolve(id, "completionProvider") {
            return false;
        }
        self.ask(id, "completionItem/resolve", item.clone(), Ask::ResolveCompletion { doc, index })
    }

    fn can_resolve(&self, id: ServerId, capability: &str) -> (yes: bool)
        ensures
            yes == resolves(pool(*self), id, capability@),
    {
        let at = self.find(id);
        if at >= self.servers.len() {
            return false;
        }
        match get_in(self.servers[at].capabilities.get(capability), "resolveProvider") {
            Some(Json::Bool(b)) => *b,
            Some(j) => {
                proof {
                    lemma_said(*j);
                }
                false
            },
            None => false,
        }
    }
}

/// What is said to run a command.
pub open spec fn command_value(command: Value) -> Value {
    Value::Object(
        seq![
            (
                "command"@,
                match field(command, "command"@) {
                    Some(v) => v,
                    None => Value::Null,
                },
            ),
            (
                "arguments"@,
                match field(command, "arguments"@) {
                    Some(v) => v,
                    None => Value::List(Seq::empty()),
                },
            ),
        ],
    )
}

/// Whether a server fills in what it sent in outline.
pub open spec fn resolves(ss: Seq<Serving>, id: ServerId, capability: Seq<char>) -> bool {
    let at = server_place(ss, id, 0);
    at < ss.len() && field_in(field(ss[at].capabilities, capability), "resolveProvider"@) == Some(
        Value::Bool(true),
    )
}

// ---------------------------------------------------------------------------
// Files
// ---------------------------------------------------------------------------

/// Paths with one more, which may be there already.
pub open spec fn with_path(ps: Seq<Seq<char>>, path: Seq<char>) -> Seq<Seq<char>> {
    if among(ps, path) { ps } else { ps.push(path) }
}

/// What is said when a file is opened.
pub open spec fn opened_value(doc: Document, path: Seq<char>, lsp_id: Seq<char>) -> Value {
    only(
        "textDocument"@,
        Value::Object(
            seq![
                ("uri"@, Value::Text(uri(path))),
                ("languageId"@, Value::Text(lsp_id)),
                ("version"@, int_value(doc.version as i64)),
                ("text"@, Value::Text(doc.content())),
            ],
        ),
    )
}

/// A server that has been told that a file is open.
pub open spec fn with_open(s: Serving, doc: Document, lsp_id: Seq<char>) -> Serving {
    match doc.path {
        Some(path) => told(
            Serving { open: with_path(s.open, path@), ..s },
            "textDocument/didOpen"@,
            opened_value(doc, path@, lsp_id),
        ),
        None => s,
    }
}

/// A server that has been told of the first `n` documents that waited for it.
pub open spec fn with_queued(
    s: Serving,
    docs: Seq<(&Document, String)>,
    queued: Seq<DocId>,
    n: int,
) -> Serving
    decreases n,
{
    if n <= 0 {
        s
    } else {
        let less = with_queued(s, docs, queued, n - 1);
        if queued.contains(docs[n - 1].0.id) {
            with_open(less, *docs[n - 1].0, docs[n - 1].1@)
        } else {
            less
        }
    }
}

/// A server that has answered, and been told what was waiting for that.
pub open spec fn made_ready(s: Serving, result: Value, docs: Seq<(&Document, String)>) -> Serving {
    let up = Serving {
        capabilities: match field(result, "capabilities"@) {
            Some(v) => v,
            None => Value::Null,
        },
        state: Standing::Ready,
        ..s
    };
    let greeted = told(up, "initialized"@, Value::Object(Seq::empty()));
    let settled = match s.settings {
        Some(settings) => told(
            greeted,
            "workspace/didChangeConfiguration"@,
            only("settings"@, settings),
        ),
        None => greeted,
    };
    with_queued(
        Serving { queued: Seq::empty(), ..settled },
        docs,
        s.queued,
        docs.len() as int,
    )
}

/// The place of the server that was run by a command for a project, or the
/// end.
pub open spec fn place_for(ss: Seq<Serving>, command: Seq<char>, root: Seq<char>, i: int) -> int
    decreases ss.len() - i,
{
    if 0 <= i < ss.len() && !(ss[i].name == command && same_path(ss[i].root, root)) {
        place_for(ss, command, root, i + 1)
    } else {
        i
    }
}

/// Whether a server was tried for a project and could not be started.
pub open spec fn was_tried(
    failed: Seq<(Seq<char>, Seq<char>)>,
    command: Seq<char>,
    root: Seq<char>,
) -> bool {
    exists|i: int|
        0 <= i < failed.len() && (#[trigger] failed[i]).0 == command && same_path(
            failed[i].1,
            root,
        )
}

/// What is left to do about a server that a document needs.
#[derive(Clone, Copy, PartialEq, Eq, Structural, Debug)]
pub enum Opening {
    /// Nothing.
    Done,
    /// It has to be started, and then told about the document.
    Start,
}

/// What comes of a document that needs a server.
pub open spec fn after_open(
    ss: Seq<Serving>,
    failed: Seq<(Seq<char>, Seq<char>)>,
    doc: Document,
    command: Seq<char>,
    root: Seq<char>,
    lsp_id: Seq<char>,
) -> (Seq<Serving>, Opening) {
    match doc.path {
        None => (ss, Opening::Done),
        Some(path) => {
            let at = place_for(ss, command, root, 0);
            if was_tried(failed, command, root) {
                (ss, Opening::Done)
            } else if at >= ss.len() || ss[at].state is Dead {
                (ss, Opening::Start)
            } else if among(ss[at].open, path@) {
                (ss, Opening::Done)
            } else if ss[at].state is Ready {
                (ss.update(at, with_open(ss[at], doc, lsp_id)), Opening::Done)
            } else {
                (
                    ss.update(
                        at,
                        Serving { queued: ss[at].queued.push(doc.id), ..ss[at] },
                    ),
                    Opening::Done,
                )
            }
        },
    }
}

/// What is said to a server first.
pub open spec fn hello(
    process: u32,
    version: Seq<char>,
    root: Seq<char>,
    options: Option<Value>,
) -> Value {
    Value::Object(
        seq![
            ("processId"@, Value::Natural(process as u64)),
            (
                "clientInfo"@,
                Value::Object(
                    seq![
                        ("name"@, Value::Text("textfold"@)),
                        ("version"@, Value::Text(version)),
                    ],
                ),
            ),
            ("rootUri"@, Value::Text(uri(root))),
            (
                "workspaceFolders"@,
                Value::List(
                    seq![
                        Value::Object(
                            seq![
                                ("uri"@, Value::Text(uri(root))),
                                (
                                    "name"@,
                                    Value::Text(
                                        match last_name(root) {
                                            Some(name) => name,
                                            None => "workspace"@,
                                        },
                                    ),
                                ),
                            ],
                        ),
                    ],
                ),
            ),
            (
                "initializationOptions"@,
                match options {
                    Some(v) => v,
                    None => Value::Null,
                },
            ),
            ("capabilities"@, client_part()),
        ],
    )
}

/// A server that has just been started for a document and been said hello to.
pub open spec fn just_started(
    id: ServerId,
    filled: Config,
    root: Seq<char>,
    process: u32,
    version: Seq<char>,
    waiting: DocId,
) -> Serving {
    questioned(
        Serving {
            id,
            name: filled.command@,
            root,
            state: Standing::Starting,
            capabilities: Value::Null,
            settings: maybe_json(filled.settings),
            open: Seq::empty(),
            queued: seq![waiting],
            progress: Seq::empty(),
            message: None,
            peer: silence(),
        },
        "initialize"@,
        hello(process, version, root, maybe_json(filled.init_options)),
        Asked::Initialize,
    )
}

fn say_hello(process: u32, version: &str, root: &str, options: &Option<Json>) -> (j: Json)
    ensures
        j@ == hello(process, version@, root@, maybe_json(*options)),
{
    let ghost want = hello(process, version@, root@, maybe_json(*options));
    let address = uri_of(root);
    let mut info: Vec<(String, Json)> = Vec::new();
    add_field(&mut info, "name", string("textfold"));
    add_field(&mut info, "version", string(version));
    assert(fields(info@) =~= want->Object_0[1].1->Object_0);
    let mut folder: Vec<(String, Json)> = Vec::new();
    add_field(&mut folder, "uri", string(address.as_str()));
    let name = match file_name(root) {
        Some(name) => crate::strings::text_of(&name),
        None => "workspace".to_owned(),
    };
    add_field(&mut folder, "name", string(name.as_str()));
    let ghost one = want->Object_0[3].1->List_0[0];
    assert(fields(folder@) =~= one->Object_0);
    let mut folders: Vec<Json> = Vec::new();
    add_item(&mut folders, object(folder));
    assert(each(folders@) =~= want->Object_0[3].1->List_0);
    let mut fs: Vec<(String, Json)> = Vec::new();
    add_field(&mut fs, "processId", Json::Natural(process as u64));
    add_field(&mut fs, "clientInfo", object(info));
    add_field(&mut fs, "rootUri", string(address.as_str()));
    add_field(&mut fs, "workspaceFolders", list(folders));
    let given = match options {
        Some(v) => v.clone(),
        None => Json::Null,
    };
    add_field(&mut fs, "initializationOptions", given);
    add_field(&mut fs, "capabilities", capabilities());
    let j = object(fs);
    assert(j@->Object_0 =~= want->Object_0);
    j
}

fn say_opened(doc: &Document, path: &str, lsp_id: &str) -> (j: Json)
    ensures
        j@ == opened_value(*doc, path@, lsp_id@),
{
    let address = uri_of(path);
    let text = doc.text();
    let mut fs: Vec<(String, Json)> = Vec::new();
    add_field(&mut fs, "uri", string(address.as_str()));
    add_field(&mut fs, "languageId", string(lsp_id));
    add_field(&mut fs, "version", number(doc.version as i64));
    add_field(&mut fs, "text", string(text.as_str()));
    let inner = object(fs);
    assert(inner@->Object_0 =~= opened_value(*doc, path@, lsp_id@)->Object_0[0].1->Object_0);
    say_only("textDocument", inner)
}

/// Put a path among others, once.
pub fn put_path(ps: &mut Vec<String>, path: &str) -> (new: bool)
    ensures
        texts(final(ps)@) == with_path(texts(old(ps)@), path@),
        new == !among(texts(old(ps)@), path@),
{
    if is_among(ps, path) {
        return false;
    }
    let ghost had = ps@;
    ps.push(path.to_owned());
    assert(texts(ps@) =~= texts(had).push(path@));
    true
}

impl Server {
    fn tell_open(&mut self, doc: &Document, lsp_id: &str)
        ensures
            final(self)@ == with_open(old(self)@, *doc, lsp_id@),
    {
        if let Some(path) = &doc.path {
            let ghost was = self@;
            put_path(&mut self.open, path.as_str());
            assert(self@ =~= (Serving { open: with_path(was.open, path@), ..was }));
            self.notify("textDocument/didOpen", say_opened(doc, path.as_str(), lsp_id));
        }
    }

    fn take_queue(&mut self) -> (q: Vec<DocId>)
        ensures
            q@ == old(self)@.queued,
            final(self)@ == (Serving { queued: Seq::empty(), ..old(self)@ }),
    {
        let ghost was = self@;
        let mut q: Vec<DocId> = Vec::new();
        std::mem::swap(&mut q, &mut self.queued);
        assert(self@ =~= (Serving { queued: Seq::empty(), ..was }));
        q
    }

    fn make_ready(&mut self, result: &Json, docs: &Vec<(&Document, String)>)
        ensures
            final(self)@ == made_ready(old(self)@, result@, docs@),
    {
        let ghost was = self@;
        let said = match result.get("capabilities") {
            Some(v) => v.clone(),
            None => Json::Null,
        };
        let ghost caps = said@;
        self.capabilities = said;
        self.state = State::Ready;
        assert(self@ =~= (Serving { capabilities: caps, state: Standing::Ready, ..was }));
        self.notify("initialized", nothing());
        let settings: Option<Json> = match &self.settings {
            Some(settings) => Some(settings.clone()),
            None => None,
        };
        if let Some(settings) = settings {
            self.notify("workspace/didChangeConfiguration", say_only("settings", settings));
        }
        let queued = self.take_queue();
        let ghost base = self@;
        let mut n: usize = 0;
        while n < docs.len()
            invariant
                n <= docs@.len(),
                self@ == with_queued(base, docs@, queued@, n as int),
            decreases docs@.len() - n,
        {
            if has_id(&queued, docs[n].0.id) {
                self.tell_open(docs[n].0, docs[n].1.as_str());
            }
            n = n + 1;
        }
    }
}

fn has_id(ids: &Vec<DocId>, id: DocId) -> (yes: bool)
    ensures
        yes == ids@.contains(id),
{
    let mut i: usize = 0;
    while i < ids.len()
        invariant
            i <= ids@.len(),
            forall|k: int| 0 <= k < i ==> #[trigger] ids@[k] != id,
        decreases ids@.len() - i,
    {
        if ids[i] == id {
            assert(ids@[i as int] == id);
            return true;
        }
        i = i + 1;
    }
    false
}

/// Whether a command was tried for a project.
fn is_tried(failed: &Vec<(String, String)>, command: &str, root: &str) -> (yes: bool)
    ensures
        yes == was_tried(pairs(failed@), command@, root@),
{
    let ghost all = pairs(failed@);
    let mut i: usize = 0;
    while i < failed.len()
        invariant
            i <= failed@.len(),
            all == pairs(failed@),
            forall|k: int|
                0 <= k < i ==> !((#[trigger] all[k]).0 == command@ && same_path(all[k].1, root@)),
        decreases failed@.len() - i,
    {
        assert(all[i as int] == (failed@[i as int].0@, failed@[i as int].1@));
        if same(failed[i].0.as_str(), command) && is_same(failed[i].1.as_str(), root) {
            return true;
        }
        i = i + 1;
    }
    false
}

/// Pairs with one more, which may be there already.
pub open spec fn with_tried(
    failed: Seq<(Seq<char>, Seq<char>)>,
    command: Seq<char>,
    root: Seq<char>,
) -> Seq<(Seq<char>, Seq<char>)> {
    if was_tried(failed, command, root) { failed } else { failed.push((command, root)) }
}

fn note_tried(failed: &mut Vec<(String, String)>, command: &str, root: &str)
    ensures
        pairs(final(failed)@) == with_tried(pairs(old(failed)@), command@, root@),
{
    if is_tried(failed, command, root) {
        return;
    }
    let ghost had = failed@;
    failed.push((command.to_owned(), root.to_owned()));
    assert(pairs(failed@) =~= pairs(had).push((command@, root@)));
}

impl Servers {
    /// Tell the server that a document needs about it, where there is one
    /// that is alive. One that is not ready yet is told when it is.
    pub fn open(&mut self, doc: &Document, command: &str, root: &str, lsp_id: &str) -> (o: Opening)
        ensures
            (pool(*final(self)), o) == after_open(
                pool(*old(self)),
                pairs(old(self).failed@),
                *doc,
                command@,
                root@,
                lsp_id@,
            ),
            rest_same(*final(self), *old(self)),
    {
        let path = match &doc.path {
            Some(path) => path,
            None => {
                return Opening::Done;
            },
        };
        if is_tried(&self.failed, command, root) {
            return Opening::Done;
        }
        let ghost ss = pool(*self);
        let mut at: usize = 0;
        while at < self.servers.len() && !(same(self.servers[at].name.as_str(), command) && is_same(
            self.servers[at].root.as_str(),
            root,
        ))
            invariant
                at <= self.servers@.len(),
                ss == pool(*self),
                *self == *old(self),
                place_for(ss, command@, root@, 0) == place_for(ss, command@, root@, at as int),
            decreases self.servers@.len() - at,
        {
            assert(ss[at as int] == self.servers@[at as int]@);
            at = at + 1;
        }
        assert(ss.len() == self.servers@.len());
        if at >= self.servers.len() {
            return Opening::Start;
        }
        assert(ss[at as int] == self.servers@[at as int]@);
        if matches!(self.servers[at].state, State::Dead(_)) {
            return Opening::Start;
        }
        if is_among(&self.servers[at].open, path.as_str()) {
            return Opening::Done;
        }
        if self.servers[at].is_ready() {
            self.servers[at].tell_open(doc, lsp_id);
            assert(pool(*self) =~= ss.update(at as int, with_open(ss[at as int], *doc, lsp_id@)));
        } else {
            self.servers[at].queue(doc.id);
            assert(pool(*self) =~= ss.update(
                at as int,
                Serving { queued: ss[at as int].queued.push(doc.id), ..ss[at as int] },
            ));
        }
        Opening::Done
    }

    /// A server that was run for a project: it joins the list and is said
    /// hello to, and the document that it was started for waits for it.
    pub fn started(
        &mut self,
        filled: &Config,
        root: &str,
        process: u32,
        version: &str,
        waiting: DocId,
    ) -> (id: ServerId)
        ensures
            id == ServerId(old(self).servers@.len() as usize),
            pool(*final(self)) == pool(*old(self)).push(
                just_started(id, *filled, root@, process, version@, waiting),
            ),
            rest_same(*final(self), *old(self)),
    {
        let id = ServerId(self.servers.len());
        let settings: Option<Json> = match &filled.settings {
            Some(settings) => Some(settings.clone()),
            None => None,
        };
        let mut server = Server {
            id,
            name: filled.command.clone(),
            root: root.to_owned(),
            state: State::Starting,
            capabilities: Json::Null,
            settings,
            open: Vec::new(),
            queued: vec![waiting],
            progress: Vec::new(),
            message: None,
            peer: Peer::new(),
        };
        assert(server@.open =~= Seq::<Seq<char>>::empty());
        assert(server@.queued =~= seq![waiting]);
        assert(server@.progress =~= Seq::<(Seq<char>, Seq<char>)>::empty());
        server.request(
            "initialize",
            say_hello(process, version, root, &filled.init_options),
            Ask::Initialize,
        );
        let ghost had = self.servers@;
        let ghost is = server@;
        self.servers.push(server);
        assert(pool(*self) =~= views(had).push(is));
        id
    }

    /// A server that could not be run for a project: it is not tried again.
    pub fn not_started(&mut self, command: &str, root: &str, why: String)
        ensures
            pool(*final(self)) == pool(*old(self)),
            pairs(final(self).failed@) == with_tried(
                pairs(old(self).failed@),
                command@,
                root@,
            ),
            texts(final(self).problems@) == texts(old(self).problems@).push(why@),
            final(self).environments == old(self).environments,
    {
        note_tried(&mut self.failed, command, root);
        let ghost had = self.problems@;
        let ghost is = why@;
        self.problems.push(why);
        assert(texts(self.problems@) =~= texts(had).push(is));
    }

    /// The server has answered. Everything that was waiting for it goes now.
    pub fn ready(&mut self, id: ServerId, result: &Json, docs: &Vec<(&Document, String)>)
        ensures
            ({
                let ss = pool(*old(self));
                let at = server_place(ss, id, 0);
                pool(*final(self)) == if at < ss.len() {
                    ss.update(at, made_ready(ss[at], result@, docs@))
                } else {
                    ss
                }
            }),
            rest_same(*final(self), *old(self)),
    {
        let ghost ss = pool(*self);
        let at = self.find(id);
        if at < self.servers.len() {
            self.servers[at].make_ready(result, docs);
            assert(pool(*self) =~= ss.update(
                at as int,
                made_ready(ss[at as int], result@, docs@),
            ));
        }
    }

    /// Mark a server as gone. It is not tried again.
    pub fn died(&mut self, id: ServerId, why: String)
        ensures
            ({
                let ss = pool(*old(self));
                let at = server_place(ss, id, 0);
                if at < ss.len() {
                    &&& pool(*final(self)) == ss.update(
                        at,
                        (Serving {
                            state: Standing::Dead(why@),
                            open: Seq::empty(),
                            progress: Seq::empty(),
                            ..ss[at]
                        }),
                    )
                    &&& pairs(final(self).failed@) == with_tried(
                        pairs(old(self).failed@),
                        ss[at].name,
                        ss[at].root,
                    )
                } else {
                    *final(self) == *old(self)
                }
            }),
            final(self).problems == old(self).problems,
            final(self).environments == old(self).environments,
    {
        let ghost ss = pool(*self);
        let at = self.find(id);
        if at < self.servers.len() {
            let name = self.servers[at].name.clone();
            let root = self.servers[at].root.clone();
            let ghost w = why@;
            self.servers[at].die(why);
            assert(pool(*self) =~= ss.update(
                at as int,
                Serving {
                    state: Standing::Dead(w),
                    open: Seq::empty(),
                    progress: Seq::empty(),
                    ..ss[at as int]
                },
            ));
            note_tried(&mut self.failed, name.as_str(), root.as_str());
        }
    }

    /// Stop everything, on the way out.
    pub fn shutdown_all(&mut self)
        ensures
            pool(*final(self)) == pool(*old(self)).map_values(|s: Serving| with_stop(s)),
            rest_same(*final(self), *old(self)),
    {
        let ghost ss = pool(*self);
        let ghost want = ss.map_values(|s: Serving| with_stop(s));
        let mut i: usize = 0;
        while i < self.servers.len()
            invariant
                i <= self.servers@.len() == ss.len(),
                want == ss.map_values(|s: Serving| with_stop(s)),
                rest_same(*self, *old(self)),
                forall|k: int| 0 <= k < i ==> (#[trigger] self.servers@[k])@ == want[k],
                forall|k: int|
                    i <= k < self.servers@.len() ==> (#[trigger] self.servers@[k])@ == ss[k],
            decreases self.servers@.len() - i,
        {
            self.servers[i].stop();
            i = i + 1;
        }
        assert(pool(*self) =~= want);
    }

    /// Start them all again: what there is is stopped and forgotten. What was
    /// left to say to each is handed back.
    pub fn restart(&mut self) -> (past: Vec<Server>)
        ensures
            views(past@) == pool(*old(self)).map_values(|s: Serving| with_stop(s)),
            pool(*final(self)).len() == 0,
            final(self).failed@.len() == 0,
            final(self).problems == old(self).problems,
            final(self).environments == old(self).environments,
    {
        self.shutdown_all();
        let mut past: Vec<Server> = Vec::new();
        std::mem::swap(&mut past, &mut self.servers);
        self.failed.clear();
        past
    }
}

/// A server that has been told to stop.
pub open spec fn with_stop(s: Serving) -> Serving {
    if s.state is Dead { s } else { Serving { peer: spoken(s.peer, Sent::Stop), ..s } }
}

impl Server {
    fn queue(&mut self, id: DocId)
        ensures
            final(self)@ == (Serving { queued: old(self)@.queued.push(id), ..old(self)@ }),
    {
        let ghost was = self@;
        self.queued.push(id);
        assert(self@ =~= (Serving { queued: was.queued.push(id), ..was }));
    }

    fn die(&mut self, why: String)
        ensures
            final(self)@ == (Serving {
                state: Standing::Dead(why@),
                open: Seq::empty(),
                progress: Seq::empty(),
                ..old(self)@
            }),
    {
        let ghost was = self@;
        self.state = State::Dead(why);
        self.open.clear();
        self.progress.clear();
        assert(texts(self.open@) =~= Seq::<Seq<char>>::empty());
        assert(pairs(self.progress@) =~= Seq::<(Seq<char>, Seq<char>)>::empty());
        assert(self@ =~= (Serving {
            state: Standing::Dead(why@),
            open: Seq::empty(),
            progress: Seq::empty(),
            ..was
        }));
    }

    fn stop(&mut self)
        ensures
            final(self)@ == with_stop(old(self)@),
    {
        let ghost was = self@;
        if !matches!(self.state, State::Dead(_)) {
            self.peer.send(Sending::Stop);
            assert(self@ =~= (Serving { peer: spoken(was.peer, Sent::Stop), ..was }));
        }
    }
}
// ---------------------------------------------------------------------------
// One process each
// ---------------------------------------------------------------------------

/// Whether two servers are of one command for one project.
pub open spec fn alike(a: Serving, b: Serving) -> bool {
    a.name == b.name && same_path(a.root, b.root)
}

/// Whether no two servers are of one command for one project, and one that has
/// died is not tried again.
pub open spec fn one_each(ss: Seq<Serving>, failed: Seq<(Seq<char>, Seq<char>)>) -> bool {
    &&& forall|i: int, j: int|
        0 <= i < j < ss.len() ==> !alike(#[trigger] ss[i], #[trigger] ss[j])
    &&& forall|i: int|
        0 <= i < ss.len() && (#[trigger] ss[i]).state is Dead ==> was_tried(
            failed,
            ss[i].name,
            ss[i].root,
        )
}

proof fn lemma_place_for(ss: Seq<Serving>, command: Seq<char>, root: Seq<char>, i: int)
    requires
        0 <= i <= ss.len(),
    ensures
        ({
            let at = place_for(ss, command, root, i);
            &&& i <= at <= ss.len()
            &&& at < ss.len() ==> ss[at].name == command && same_path(ss[at].root, root)
            &&& forall|k: int|
                i <= k < at ==> !((#[trigger] ss[k]).name == command && same_path(
                    ss[k].root,
                    root,
                ))
        }),
    decreases ss.len() - i,
{
    if i < ss.len() && !(ss[i].name == command && same_path(ss[i].root, root)) {
        lemma_place_for(ss, command, root, i + 1);
    }
}

/// There is one process for each server and each project: a document that finds
/// a server running is given to it, and one is started only where none was.
pub proof fn law_one_process_for_each_project(
    ss: Seq<Serving>,
    failed: Seq<(Seq<char>, Seq<char>)>,
    doc: Document,
    filled: Config,
    root: Seq<char>,
    lsp_id: Seq<char>,
    process: u32,
    version: Seq<char>,
)
    requires
        one_each(ss, failed),
    ensures
        ({
            let (after, opening) = after_open(ss, failed, doc, filled.command@, root, lsp_id);
            let id = ServerId(ss.len() as usize);
            &&& one_each(after, failed)
            &&& opening == Opening::Start ==> after == ss && forall|i: int|
                0 <= i < ss.len() ==> !((#[trigger] ss[i]).name == filled.command@ && same_path(
                    ss[i].root,
                    root,
                ))
            &&& opening == Opening::Start ==> one_each(
                ss.push(just_started(id, filled, root, process, version, doc.id)),
                failed,
            )
        }),
{
    let command = filled.command@;
    lemma_place_for(ss, command, root, 0);
    let at = place_for(ss, command, root, 0);
    let (after, opening) = after_open(ss, failed, doc, command, root, lsp_id);
    if at < ss.len() && ss[at].state is Dead {
        assert(was_tried(failed, ss[at].name, ss[at].root));
        let k = choose|k: int|
            0 <= k < failed.len() && (#[trigger] failed[k]).0 == ss[at].name && same_path(
                failed[k].1,
                ss[at].root,
            );
        assert(failed[k].0 == command && same_path(failed[k].1, root));
        assert(was_tried(failed, command, root));
    }
    assert forall|i: int, j: int| 0 <= i < j < after.len() implies !alike(
        #[trigger] after[i],
        #[trigger] after[j],
    ) by {
        assert(!alike(ss[i], ss[j]));
    }
    assert forall|i: int| 0 <= i < after.len() && (#[trigger] after[i]).state is Dead implies
        was_tried(failed, after[i].name, after[i].root) by {
        assert(ss[i].state is Dead);
    }
    if opening == Opening::Start {
        let new = just_started(ServerId(ss.len() as usize), filled, root, process, version, doc.id);
        let more = ss.push(new);
        assert(new.name == command && new.root == root && !(new.state is Dead));
        assert forall|i: int, j: int| 0 <= i < j < more.len() implies !alike(
            #[trigger] more[i],
            #[trigger] more[j],
        ) by {
            if j < ss.len() {
                assert(!alike(ss[i], ss[j]));
            } else {
                assert(more[i] == ss[i]);
            }
        }
        assert forall|i: int| 0 <= i < more.len() && (#[trigger] more[i]).state is Dead implies
            was_tried(failed, more[i].name, more[i].root) by {
            assert(more[i] == ss[i]);
        }
    }
}

} // verus!
