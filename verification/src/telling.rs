//! What language servers are told as files change, and what they say in
//! between.
use vstd::prelude::*;

use crate::change::{begins, edited, made, stops, Patch};
use crate::chars::same;
use crate::client::{only, say_only};
use crate::diagnose::{diagnostic_from_lsp, trouble_in, Trouble};
use crate::doc::{
    describes, law_a_position_survives_the_language_server, recounts, units_reach, AppliedEdit,
    Diagnostic, Document,
};
use crate::json::{
    add_field, add_item, as_array, as_str, each, field, field_in, int_value, lemma_said, list,
    list_in, maybe, number, object, show, string, text_in, written, Json, Value,
};
use crate::lsp::{
    dig, drop_token, dug, get_in, maybe_json, progress_words, say_progress, set_token, sync_in,
    take_out, told, with_token, without, without_token, Config, Server, ServerId, Serving, Sync,
};
use crate::path::{among, is_among, is_same, same_path};
use crate::rope::{line_at, start_of_line};
use crate::rpc::{spoken, Sent};
use crate::servers::{file_value, pool, rest_same, say_file, server_place, Servers};
use crate::split::cut;
use crate::strings::{contains, copy_texts, holds, maybe_text, texts};
use crate::text::end_of_line;
use crate::uri::{path_in, path_of, uri, uri_of};
use crate::vars::{fills, fills_value, known_of, pairs, Environment, Vars};

verus! {

// ---------------------------------------------------------------------------
// Edits, saves and closings
// ---------------------------------------------------------------------------

/// A line and a column, as a server is told them.
pub open spec fn spot(p: (usize, usize)) -> Value {
    Value::Object(
        seq![
            ("line"@, Value::Natural(p.0 as u64)),
            ("character"@, Value::Natural(p.1 as u64)),
        ],
    )
}

/// One edit as a range and what is put in its place.
pub open spec fn edit_value(e: AppliedEdit) -> Value {
    Value::Object(
        seq![
            (
                "range"@,
                Value::Object(seq![("start"@, spot(e.lsp_start)), ("end"@, spot(e.lsp_old_end))]),
            ),
            ("text"@, Value::Text(e.text@)),
        ],
    )
}

/// The edits in the order in which they happened.
pub open spec fn ranged(edits: Seq<AppliedEdit>) -> Seq<Value> {
    edits.map_values(|e: AppliedEdit| edit_value(e))
}

/// What is said of a change.
pub open spec fn change_value(path: Seq<char>, version: i32, changes: Seq<Value>) -> Value {
    Value::Object(
        seq![
            (
                "textDocument"@,
                Value::Object(
                    seq![
                        ("uri"@, Value::Text(uri(path))),
                        ("version"@, int_value(version as i64)),
                    ],
                ),
            ),
            ("contentChanges"@, Value::List(changes)),
        ],
    )
}

/// A server that has been told of edits, if it knows the file, in the form it
/// asked for.
pub open spec fn with_change(
    s: Serving,
    path: Seq<char>,
    version: i32,
    edits: Seq<Value>,
    whole: Seq<char>,
) -> Serving {
    if !among(s.open, path) {
        s
    } else {
        match sync_in(s.capabilities) {
            Sync::Off => s,
            Sync::Incremental => told(
                s,
                "textDocument/didChange"@,
                change_value(path, version, edits),
            ),
            Sync::Full => told(
                s,
                "textDocument/didChange"@,
                change_value(path, version, seq![only("text"@, Value::Text(whole))]),
            ),
        }
    }
}

/// Servers that have been told of edits.
pub open spec fn changed(ss: Seq<Serving>, doc: Document, edits: Seq<AppliedEdit>) -> Seq<Serving> {
    match doc.path {
        Some(path) => if edits.len() == 0 {
            ss
        } else {
            ss.map_values(
                |s: Serving| with_change(s, path@, doc.version, ranged(edits), doc.content()),
            )
        },
        None => ss,
    }
}

/// What is said of a save.
pub open spec fn saved_value(path: Seq<char>, text: Seq<char>) -> Value {
    Value::Object(seq![("textDocument"@, file_value(path)), ("text"@, Value::Text(text))])
}

/// A server that has been told of a save, if it knows the file.
pub open spec fn with_save(s: Serving, path: Seq<char>, text: Seq<char>) -> Serving {
    if among(s.open, path) {
        told(s, "textDocument/didSave"@, saved_value(path, text))
    } else {
        s
    }
}

/// A server that has been told that a file is closed, if it knew it. It does
/// not any more.
pub open spec fn with_close(s: Serving, path: Seq<char>) -> Serving {
    if among(s.open, path) {
        told(
            Serving { open: without(s.open, path), ..s },
            "textDocument/didClose"@,
            only("textDocument"@, file_value(path)),
        )
    } else {
        s
    }
}

fn say_spot(p: (usize, usize)) -> (j: Json)
    ensures
        j@ == spot(p),
{
    let mut fs: Vec<(String, Json)> = Vec::new();
    add_field(&mut fs, "line", Json::Natural(p.0 as u64));
    add_field(&mut fs, "character", Json::Natural(p.1 as u64));
    let j = object(fs);
    assert(j@->Object_0 =~= spot(p)->Object_0);
    j
}

fn say_edit(e: &AppliedEdit) -> (j: Json)
    ensures
        j@ == edit_value(*e),
{
    let mut ends: Vec<(String, Json)> = Vec::new();
    add_field(&mut ends, "start", say_spot(e.lsp_start));
    add_field(&mut ends, "end", say_spot(e.lsp_old_end));
    let range = object(ends);
    assert(range@->Object_0 =~= edit_value(*e)->Object_0[0].1->Object_0);
    let mut fs: Vec<(String, Json)> = Vec::new();
    add_field(&mut fs, "range", range);
    add_field(&mut fs, "text", string(e.text.as_str()));
    let j = object(fs);
    assert(j@->Object_0 =~= edit_value(*e)->Object_0);
    j
}

fn say_edits(edits: &Vec<AppliedEdit>) -> (v: Vec<Json>)
    ensures
        each(v@) == ranged(edits@),
{
    let ghost want = ranged(edits@);
    let mut v: Vec<Json> = Vec::new();
    let mut i: usize = 0;
    assert(each(v@) =~= want.take(0));
    while i < edits.len()
        invariant
            i <= edits@.len(),
            want == ranged(edits@),
            each(v@) == want.take(i as int),
        decreases edits@.len() - i,
    {
        add_item(&mut v, say_edit(&edits[i]));
        assert(want.take(i + 1) =~= want.take(i as int).push(want[i as int]));
        i = i + 1;
    }
    assert(want.take(i as int) =~= want);
    v
}

fn say_change(path: &str, version: i32, changes: Vec<Json>) -> (j: Json)
    ensures
        j@ == change_value(path@, version, each(changes@)),
{
    let ghost want = change_value(path@, version, each(changes@));
    let address = uri_of(path);
    let mut which: Vec<(String, Json)> = Vec::new();
    add_field(&mut which, "uri", string(address.as_str()));
    add_field(&mut which, "version", number(version as i64));
    let file = object(which);
    assert(file@->Object_0 =~= want->Object_0[0].1->Object_0);
    let mut fs: Vec<(String, Json)> = Vec::new();
    add_field(&mut fs, "textDocument", file);
    add_field(&mut fs, "contentChanges", list(changes));
    let j = object(fs);
    assert(j@->Object_0 =~= want->Object_0);
    j
}

impl Server {
    fn tell_change(&mut self, doc: &Document, path: &str, edits: &Vec<AppliedEdit>)
        ensures
            final(self)@ == with_change(
                old(self)@,
                path@,
                doc.version,
                ranged(edits@),
                doc.content(),
            ),
    {
        if !is_among(&self.open, path) {
            return;
        }
        match self.sync() {
            Sync::Off => {},
            Sync::Incremental => {
                let changes = say_edits(edits);
                self.notify("textDocument/didChange", say_change(path, doc.version, changes));
            },
            Sync::Full => {
                let text = doc.text();
                let mut changes: Vec<Json> = Vec::new();
                add_item(&mut changes, say_only("text", string(text.as_str())));
                assert(each(changes@) =~= seq![only("text"@, Value::Text(doc.content()))]);
                self.notify("textDocument/didChange", say_change(path, doc.version, changes));
            },
        }
    }

    fn tell_save(&mut self, doc: &Document, path: &str)
        ensures
            final(self)@ == with_save(old(self)@, path@, doc.content()),
    {
        if is_among(&self.open, path) {
            let text = doc.text();
            let mut fs: Vec<(String, Json)> = Vec::new();
            add_field(&mut fs, "textDocument", say_file(path));
            add_field(&mut fs, "text", string(text.as_str()));
            let params = object(fs);
            assert(params@->Object_0 =~= saved_value(path@, doc.content())->Object_0);
            self.notify("textDocument/didSave", params);
        }
    }

    fn tell_close(&mut self, path: &str)
        ensures
            final(self)@ == with_close(old(self)@, path@),
    {
        let ghost was = self@;
        if is_among(&self.open, path) {
            take_out(&mut self.open, path);
            assert(self@ =~= (Serving { open: without(was.open, path@), ..was }));
            self.notify("textDocument/didClose", say_only("textDocument", say_file(path)));
        }
    }
}

impl Servers {
    /// Tell every server that knows a document about edits to it, each in the
    /// form that it asked for.
    pub fn did_change(&mut self, doc: &Document, edits: &Vec<AppliedEdit>)
        ensures
            pool(*final(self)) == changed(pool(*old(self)), *doc, edits@),
            rest_same(*final(self), *old(self)),
    {
        if edits.len() == 0 {
            return;
        }
        if let Some(path) = &doc.path {
            let ghost ss = pool(*self);
            let ghost want = changed(ss, *doc, edits@);
            let mut i: usize = 0;
            while i < self.servers.len()
                invariant
                    i <= self.servers@.len() == ss.len(),
                    edits@.len() > 0,
                    doc.path == Some(*path),
                    want == changed(ss, *doc, edits@),
                    rest_same(*self, *old(self)),
                    forall|k: int| 0 <= k < i ==> (#[trigger] self.servers@[k])@ == want[k],
                    forall|k: int|
                        i <= k < self.servers@.len() ==> (#[trigger] self.servers@[k])@ == ss[k],
                decreases self.servers@.len() - i,
            {
                self.servers[i].tell_change(doc, path.as_str(), edits);
                i = i + 1;
            }
            assert(pool(*self) =~= want);
        }
    }

    /// Tell every server that knows a document that it was saved.
    pub fn did_save(&mut self, doc: &Document)
        ensures
            pool(*final(self)) == match doc.path {
                Some(path) => pool(*old(self)).map_values(
                    |s: Serving| with_save(s, path@, doc.content()),
                ),
                None => pool(*old(self)),
            },
            rest_same(*final(self), *old(self)),
    {
        if let Some(path) = &doc.path {
            let ghost ss = pool(*self);
            let ghost want = ss.map_values(|s: Serving| with_save(s, path@, doc.content()));
            let mut i: usize = 0;
            while i < self.servers.len()
                invariant
                    i <= self.servers@.len() == ss.len(),
                    want.len() == ss.len(),
                    forall|k: int|
                        0 <= k < ss.len() ==> #[trigger] want[k] == with_save(
                            ss[k],
                            path@,
                            doc.content(),
                        ),
                    rest_same(*self, *old(self)),
                    forall|k: int| 0 <= k < i ==> (#[trigger] self.servers@[k])@ == want[k],
                    forall|k: int|
                        i <= k < self.servers@.len() ==> (#[trigger] self.servers@[k])@ == ss[k],
                decreases self.servers@.len() - i,
            {
                self.servers[i].tell_save(doc, path.as_str());
                assert(want[i as int] == with_save(ss[i as int], path@, doc.content()));
                i = i + 1;
            }
            assert(pool(*self) =~= want);
        }
    }

    /// Tell every server that knows a file that it is closed.
    pub fn did_close(&mut self, path: &str)
        ensures
            pool(*final(self)) == pool(*old(self)).map_values(
                |s: Serving| with_close(s, path@),
            ),
            rest_same(*final(self), *old(self)),
    {
        let ghost ss = pool(*self);
        let ghost want = ss.map_values(|s: Serving| with_close(s, path@));
        let mut i: usize = 0;
        while i < self.servers.len()
            invariant
                i <= self.servers@.len() == ss.len(),
                want.len() == ss.len(),
                forall|k: int|
                    0 <= k < ss.len() ==> #[trigger] want[k] == with_close(ss[k], path@),
                rest_same(*self, *old(self)),
                forall|k: int| 0 <= k < i ==> (#[trigger] self.servers@[k])@ == want[k],
                forall|k: int|
                    i <= k < self.servers@.len() ==> (#[trigger] self.servers@[k])@ == ss[k],
            decreases self.servers@.len() - i,
        {
            self.servers[i].tell_close(path);
            assert(want[i as int] == with_close(ss[i as int], path@));
            i = i + 1;
        }
        assert(pool(*self) =~= want);
    }
}

/// A server is never told of a change to a file that it has not been told is
/// open.
pub proof fn law_only_those_who_know_a_file_hear_of_it(
    s: Serving,
    path: Seq<char>,
    version: i32,
    edits: Seq<Value>,
    whole: Seq<char>,
)
    requires
        !among(s.open, path),
    ensures
        with_change(s, path, version, edits, whole) == s,
        with_save(s, path, whole) == s,
        with_close(s, path) == s,
{
}

/// A server hears nothing more of a file once it was closed.
pub proof fn law_a_closed_file_is_not_heard_of_again(
    s: Serving,
    path: Seq<char>,
    version: i32,
    edits: Seq<Value>,
    whole: Seq<char>,
)
    ensures
        with_change(with_close(s, path), path, version, edits, whole) == with_close(s, path),
        with_close(with_close(s, path), path) == with_close(s, path),
{
    lemma_without(s.open, path);
}

proof fn lemma_without(ps: Seq<Seq<char>>, path: Seq<char>)
    ensures
        !among(without(ps, path), path),
    decreases ps.len(),
{
    if ps.len() > 0 {
        lemma_without(ps.drop_last(), path);
        let less = without(ps.drop_last(), path);
        if !same_path(ps.last(), path) {
            assert forall|i: int| 0 <= i < less.push(ps.last()).len() implies !same_path(
                #[trigger] less.push(ps.last())[i],
                path,
            ) by {
                if i < less.len() {
                    assert(less.push(ps.last())[i] == less[i]);
                }
            }
        }
    }
}

// ---------------------------------------------------------------------------
// What a server asks and says
// ---------------------------------------------------------------------------

/// The parts of the settings that the first `n` items ask for.
pub open spec fn sections(settings: Value, items: Seq<Value>, n: int) -> Seq<Value>
    decreases n,
{
    if n <= 0 {
        Seq::empty()
    } else {
        sections(settings, items, n - 1).push(
            match text_in(field(items[n - 1], "section"@)) {
                Some(s) => dug(settings, cut(s, '.'), 0),
                None => settings,
            },
        )
    }
}

/// What is answered to a question of a server: its settings, by section, and
/// nothing to anything else.
pub open spec fn reply(settings: Option<Value>, method: Seq<char>, params: Value) -> Value {
    if method == "workspace/configuration"@ {
        let all = match settings {
            Some(v) => v,
            None => Value::Null,
        };
        match list_in(field(params, "items"@)) {
            Some(items) => Value::List(sections(all, items, items.len() as int)),
            None => Value::List(Seq::empty()),
        }
    } else {
        Value::Null
    }
}

fn say_reply(settings: &Option<Json>, method: &str, params: &Json) -> (j: Json)
    ensures
        j@ == reply(maybe_json(*settings), method@, params@),
{
    if !same(method, "workspace/configuration") {
        return Json::Null;
    }
    let all = match settings {
        Some(v) => v.clone(),
        None => Json::Null,
    };
    let mut out: Vec<Json> = Vec::new();
    assert(each(out@) =~= Seq::<Value>::empty());
    if let Some(items) = as_array(params.get("items")) {
        let ghost l = each(items@);
        let mut n: usize = 0;
        while n < items.len()
            invariant
                n <= items@.len(),
                l == each(items@),
                each(out@) == sections(all@, l, n as int),
            decreases items@.len() - n,
        {
            assert(l[n as int] == items@[n as int]@);
            let one = match as_str(items[n].get("section")) {
                Some(s) => dig(&all, s),
                None => all.clone(),
            };
            add_item(&mut out, one);
            n = n + 1;
        }
    }
    list(out)
}

/// The name that some progress goes by: a text, or a number as it is written.
pub open spec fn token_in(v: Option<Value>) -> Option<Seq<char>> {
    match v {
        Some(Value::Text(s)) => Some(s),
        Some(Value::Natural(n)) => Some(written(Value::Natural(n))),
        Some(Value::Negative(n)) => Some(written(Value::Negative(n))),
        Some(Value::Fraction(s)) => Some(written(Value::Fraction(s))),
        _ => None,
    }
}

/// Progress after a report of it: one that begins or goes on says what it is
/// about, and one that ends is forgotten.
pub open spec fn after_progress(
    ps: Seq<(Seq<char>, Seq<char>)>,
    params: Value,
) -> Seq<(Seq<char>, Seq<char>)> {
    let value = field(params, "value"@);
    match (token_in(field(params, "token"@)), text_in(field_in(value, "kind"@))) {
        (Some(token), Some(kind)) => if kind == "begin"@ || kind == "report"@ {
            with_token(ps, token, progress_words(value))
        } else if kind == "end"@ {
            without_token(ps, token)
        } else {
            ps
        },
        _ => ps,
    }
}

fn token_of(j: Option<&Json>) -> (r: Option<String>)
    ensures
        maybe_text(r) == token_in(maybe(j)),
{
    match j {
        Some(j) => {
            proof {
                lemma_said(*j);
            }
            match j {
                Json::Text(s) => Some(s.clone()),
                Json::Natural(_) | Json::Negative(_) | Json::Fraction(_) => Some(show(j)),
                _ => None,
            }
        },
        None => None,
    }
}

impl Server {
    fn hear_progress(&mut self, params: &Json)
        ensures
            final(self)@ == (Serving {
                progress: after_progress(old(self)@.progress, params@),
                ..old(self)@
            }),
    {
        let ghost was = self@;
        let value = params.get("value");
        if let Some(token) = token_of(params.get("token")) {
            if let Some(kind) = as_str(get_in(value, "kind")) {
                if same(kind, "begin") || same(kind, "report") {
                    let said = say_progress(value);
                    set_token(&mut self.progress, token.as_str(), said);
                } else if same(kind, "end") {
                    drop_token(&mut self.progress, token.as_str());
                }
            }
        }
        assert(self@ =~= (Serving { progress: after_progress(was.progress, params@), ..was }));
    }
}

/// The problems among the first `n` of a list.
pub open spec fn troubles_in(l: Seq<Value>, t: Seq<char>, server: ServerId, n: int) -> Seq<Trouble>
    decreases n,
{
    if n <= 0 {
        Seq::empty()
    } else {
        let less = troubles_in(l, t, server, n - 1);
        match trouble_in(l[n - 1], t, server) {
            Some(d) => less.push(d),
            None => less,
        }
    }
}

/// The problems that a server reports for a document. None where it speaks of
/// another file.
pub open spec fn reported(params: Value, doc: Document, server: ServerId) -> Option<Seq<Trouble>> {
    let path = match text_in(field(params, "uri"@)) {
        Some(address) => path_in(address),
        None => None,
    };
    match (path, doc.path, list_in(field(params, "diagnostics"@))) {
        (Some(path), Some(own), Some(l)) => if same_path(own@, path) {
            Some(troubles_in(l, doc.content(), server, l.len() as int))
        } else {
            None
        },
        _ => None,
    }
}

/// What is kept of problems.
pub open spec fn troubles(v: Seq<Diagnostic>) -> Seq<Trouble> {
    v.map_values(|d: Diagnostic| d@)
}

impl Servers {
    /// Answer something that a server asked.
    pub fn respond(&mut self, id: ServerId, request_id: Json, method: &str, params: &Json)
        ensures
            ({
                let ss = pool(*old(self));
                let at = server_place(ss, id, 0);
                pool(*final(self)) == if at < ss.len() {
                    ss.update(
                        at,
                        (Serving {
                            peer: spoken(
                                ss[at].peer,
                                Sent::Answer(
                                    request_id@,
                                    reply(ss[at].settings, method@, params@),
                                ),
                            ),
                            ..ss[at]
                        }),
                    )
                } else {
                    ss
                }
            }),
            rest_same(*final(self), *old(self)),
    {
        let ghost ss = pool(*self);
        let at = self.find(id);
        if at < self.servers.len() {
            let result = say_reply(&self.servers[at].settings, method, params);
            let ghost asked = request_id@;
            let ghost said = result@;
            self.servers[at].answer(request_id, result);
            assert(pool(*self) =~= ss.update(
                at as int,
                Serving {
                    peer: spoken(ss[at as int].peer, Sent::Answer(asked, said)),
                    ..ss[at as int]
                },
            ));
        }
    }

    /// Take in what a server says it is busy with.
    pub fn progress(&mut self, id: ServerId, params: &Json)
        ensures
            ({
                let ss = pool(*old(self));
                let at = server_place(ss, id, 0);
                pool(*final(self)) == if at < ss.len() {
                    ss.update(
                        at,
                        (Serving { progress: after_progress(ss[at].progress, params@), ..ss[at] }),
                    )
                } else {
                    ss
                }
            }),
            rest_same(*final(self), *old(self)),
    {
        let ghost ss = pool(*self);
        let at = self.find(id);
        if at < self.servers.len() {
            self.servers[at].hear_progress(params);
            assert(pool(*self) =~= ss.update(
                at as int,
                Serving {
                    progress: after_progress(ss[at as int].progress, params@),
                    ..ss[at as int]
                },
            ));
        }
    }

    /// Take a set of problems for a document.
    pub fn diagnostics_for(&self, id: ServerId, params: &Json, doc: &Document) -> (r: Option<
        Vec<Diagnostic>,
    >)
        ensures
            match reported(params@, *doc, id) {
                Some(ds) => r is Some && troubles(r->0@) == ds,
                None => r is None,
            },
    {
        let path = match as_str(params.get("uri")) {
            Some(address) => path_of(address),
            None => None,
        };
        match (path, &doc.path, as_array(params.get("diagnostics"))) {
            (Some(path), Some(own), Some(v)) => {
                if !is_same(own.as_str(), path.as_str()) {
                    return None;
                }
                let ghost l = each(v@);
                let ghost t = doc.content();
                let mut out: Vec<Diagnostic> = Vec::new();
                let mut n: usize = 0;
                assert(troubles(out@) =~= troubles_in(l, t, id, 0));
                while n < v.len()
                    invariant
                        n <= v@.len(),
                        l == each(v@),
                        t == doc.content(),
                        troubles(out@) == troubles_in(l, t, id, n as int),
                    decreases v@.len() - n,
                {
                    assert(l[n as int] == v@[n as int]@);
                    if let Some(d) = diagnostic_from_lsp(&v[n], doc, id) {
                        let ghost had = out@;
                        let ghost is = d@;
                        out.push(d);
                        assert(troubles(out@) =~= troubles(had).push(is));
                    }
                    n = n + 1;
                }
                Some(out)
            },
            _ => None,
        }
    }
}

// ---------------------------------------------------------------------------
// Filling in what a server is run with
// ---------------------------------------------------------------------------

/// Whether a value mentions a placeholder anywhere in it.
pub open spec fn mentions(v: Option<Value>) -> bool {
    match v {
        Some(v) => holds(written(v), "${"@),
        None => false,
    }
}

/// Whether what a server is run with mentions a placeholder at all.
pub open spec fn to_be_filled(c: Config) -> bool {
    ||| exists|i: int| 0 <= i < c.args@.len() && holds((#[trigger] c.args@[i])@, "${"@)
    ||| exists|i: int| 0 <= i < c.env@.len() && holds((#[trigger] c.env@[i]).1@, "${"@)
    ||| mentions(maybe_json(c.settings))
    ||| mentions(maybe_json(c.init_options))
}

/// The texts among the first `n` that can be filled in, filled in.
pub open spec fn filled_texts(
    known: Seq<(Seq<char>, Seq<char>)>,
    ts: Seq<Seq<char>>,
    n: int,
) -> Seq<Seq<char>>
    decreases n,
{
    if n <= 0 {
        Seq::empty()
    } else {
        let less = filled_texts(known, ts, n - 1);
        match fills(known, ts[n - 1]) {
            Some(t) => less.push(t),
            None => less,
        }
    }
}

/// The pairs among the first `n` whose second can be filled in, filled in.
pub open spec fn filled_pairs(
    known: Seq<(Seq<char>, Seq<char>)>,
    ps: Seq<(Seq<char>, Seq<char>)>,
    n: int,
) -> Seq<(Seq<char>, Seq<char>)>
    decreases n,
{
    if n <= 0 {
        Seq::empty()
    } else {
        let less = filled_pairs(known, ps, n - 1);
        match fills(known, ps[n - 1].1) {
            Some(t) => less.push((ps[n - 1].0, t)),
            None => less,
        }
    }
}

/// A value filled in, where it is there and can be.
pub open spec fn filled_value(known: Seq<(Seq<char>, Seq<char>)>, v: Option<Value>) -> Option<Value> {
    match v {
        Some(v) => fills_value(known, Seq::empty(), v),
        None => None,
    }
}

fn is_mentioned(j: &Option<Json>) -> (yes: bool)
    ensures
        yes == mentions(maybe_json(*j)),
{
    match j {
        Some(j) => contains(show(j).as_str(), "${"),
        None => false,
    }
}

/// Whether what a server is run with mentions a placeholder at all.
pub fn wants_filling(config: &Config) -> (yes: bool)
    ensures
        yes == to_be_filled(*config),
{
    let mut i: usize = 0;
    while i < config.args.len()
        invariant
            i <= config.args@.len(),
            forall|k: int| 0 <= k < i ==> !holds((#[trigger] config.args@[k])@, "${"@),
        decreases config.args@.len() - i,
    {
        if contains(config.args[i].as_str(), "${") {
            assert(holds(config.args@[i as int]@, "${"@));
            return true;
        }
        i = i + 1;
    }
    let mut k: usize = 0;
    while k < config.env.len()
        invariant
            k <= config.env@.len(),
            forall|m: int| 0 <= m < k ==> !holds((#[trigger] config.env@[m]).1@, "${"@),
        decreases config.env@.len() - k,
    {
        if contains(config.env[k].1.as_str(), "${") {
            assert(holds(config.env@[k as int].1@, "${"@));
            return true;
        }
        k = k + 1;
    }
    is_mentioned(&config.settings) || is_mentioned(&config.init_options)
}

fn fill_maybe(vars: &Vars, j: &Option<Json>) -> (r: Option<Json>)
    requires
        vars.values() == Seq::<(Seq<char>, Value)>::empty(),
    ensures
        maybe_json(r) == filled_value(vars.names(), maybe_json(*j)),
{
    match j {
        Some(j) => vars.fill_value(j),
        None => None,
    }
}

/// What a server is run with for a project, with its placeholders filled in.
/// What cannot be filled in is left out.
pub fn fill(config: &Config, root: &str, env: &Option<Environment>) -> (c: Config)
    ensures
        c.id@ == config.id@,
        c.name@ == config.name@,
        c.command@ == config.command@,
        texts(c.roots@) == texts(config.roots@),
        ({
            let known = known_of(root@, *env);
            let args = texts(config.args@);
            let vars = pairs(config.env@);
            if to_be_filled(*config) {
                &&& texts(c.args@) == filled_texts(known, args, args.len() as int)
                &&& pairs(c.env@) == filled_pairs(known, vars, vars.len() as int)
                &&& maybe_json(c.settings) == filled_value(known, maybe_json(config.settings))
                &&& maybe_json(c.init_options) == filled_value(
                    known,
                    maybe_json(config.init_options),
                )
            } else {
                &&& texts(c.args@) == args
                &&& pairs(c.env@) == vars
                &&& maybe_json(c.settings) == maybe_json(config.settings)
                &&& maybe_json(c.init_options) == maybe_json(config.init_options)
            }
        }),
{
    if !wants_filling(config) {
        return copy_config(config);
    }
    let vars = Vars::new(root, env);
    let ghost known = known_of(root@, *env);
    let ghost args = texts(config.args@);
    let mut out: Vec<String> = Vec::new();
    let mut n: usize = 0;
    assert(texts(out@) =~= filled_texts(known, args, 0));
    while n < config.args.len()
        invariant
            n <= config.args@.len(),
            args == texts(config.args@),
            known == vars.names(),
            texts(out@) == filled_texts(known, args, n as int),
        decreases config.args@.len() - n,
    {
        assert(args[n as int] == config.args@[n as int]@);
        if let Some(s) = vars.fill(config.args[n].as_str()) {
            let ghost had = out@;
            let ghost is = s@;
            out.push(s);
            assert(texts(out@) =~= texts(had).push(is));
        }
        n = n + 1;
    }
    let ghost said = pairs(config.env@);
    let mut also: Vec<(String, String)> = Vec::new();
    let mut m: usize = 0;
    assert(pairs(also@) =~= filled_pairs(known, said, 0));
    while m < config.env.len()
        invariant
            m <= config.env@.len(),
            said == pairs(config.env@),
            known == vars.names(),
            pairs(also@) == filled_pairs(known, said, m as int),
        decreases config.env@.len() - m,
    {
        assert(said[m as int] == (config.env@[m as int].0@, config.env@[m as int].1@));
        if let Some(s) = vars.fill(config.env[m].1.as_str()) {
            let ghost had = also@;
            let ghost is = s@;
            also.push((config.env[m].0.clone(), s));
            assert(pairs(also@) =~= pairs(had).push((said[m as int].0, is)));
        }
        m = m + 1;
    }
    Config {
        id: config.id.clone(),
        name: config.name.clone(),
        command: config.command.clone(),
        args: out,
        roots: copy_texts(&config.roots),
        init_options: fill_maybe(&vars, &config.init_options),
        settings: fill_maybe(&vars, &config.settings),
        env: also,
    }
}

fn copy_json(j: &Option<Json>) -> (r: Option<Json>)
    ensures
        maybe_json(r) == maybe_json(*j),
{
    match j {
        Some(j) => Some(j.clone()),
        None => None,
    }
}

/// The same, once more.
pub fn copy_config(config: &Config) -> (c: Config)
    ensures
        c.id@ == config.id@,
        c.name@ == config.name@,
        c.command@ == config.command@,
        texts(c.args@) == texts(config.args@),
        texts(c.roots@) == texts(config.roots@),
        maybe_json(c.init_options) == maybe_json(config.init_options),
        maybe_json(c.settings) == maybe_json(config.settings),
        pairs(c.env@) == pairs(config.env@),
{
    Config {
        id: config.id.clone(),
        name: config.name.clone(),
        command: config.command.clone(),
        args: copy_texts(&config.args),
        roots: copy_texts(&config.roots),
        init_options: copy_json(&config.init_options),
        settings: copy_json(&config.settings),
        env: crate::launch::copy_pairs(&config.env),
    }
}

/// The words for a server that is not there to be run.
pub fn not_installed(command: &str) -> (s: String)
    ensures
        s@ == command@ + " is not installed — code intelligence is off for now"@,
{
    let mut s = command.to_owned();
    s.append(" is not installed — code intelligence is off for now");
    s
}

impl Servers {
    /// Which environment somebody picked for a project, if they did.
    pub fn picked(&self, root: &str) -> (r: Option<String>)
        ensures
            maybe_text(r) == picked_for(pairs(self.environments@), root@, 0),
    {
        let ghost ps = pairs(self.environments@);
        let mut i: usize = 0;
        while i < self.environments.len()
            invariant
                i <= self.environments@.len(),
                ps == pairs(self.environments@),
                picked_for(ps, root@, 0) == picked_for(ps, root@, i as int),
            decreases self.environments@.len() - i,
        {
            assert(ps[i as int] == (
                self.environments@[i as int].0@,
                self.environments@[i as int].1@,
            ));
            if is_same(self.environments[i].0.as_str(), root) {
                return Some(self.environments[i].1.clone());
            }
            i = i + 1;
        }
        None
    }
}

/// What was picked for a project, from the `i`th on.
pub open spec fn picked_for(
    ps: Seq<(Seq<char>, Seq<char>)>,
    root: Seq<char>,
    i: int,
) -> Option<Seq<char>>
    decreases ps.len() - i,
{
    if i < 0 || i >= ps.len() {
        None
    } else if same_path(ps[i].0, root) {
        Some(ps[i].1)
    } else {
        picked_for(ps, root, i + 1)
    }
}
// ---------------------------------------------------------------------------
// What a server makes of edits
// ---------------------------------------------------------------------------

/// The position that a line and a column counted in 16-bit units name.
pub open spec fn place_named(t: Seq<char>, p: (usize, usize)) -> int {
    units_reach(
        t,
        start_of_line(t, p.0 as nat),
        end_of_line(t, p.0 as nat),
        0,
        p.1 as int,
    )
}

/// What a server has that takes the first `n` of some edits as it is told them,
/// one after the other.
pub open spec fn followed(t: Seq<char>, edits: Seq<AppliedEdit>, n: int) -> Seq<char>
    decreases n,
{
    if n <= 0 {
        t
    } else {
        let had = followed(t, edits, n - 1);
        let e = edits[n - 1];
        edited(
            had,
            Patch {
                from: place_named(had, e.lsp_start),
                to: place_named(had, e.lsp_old_end),
                text: e.text@,
            },
        )
    }
}

/// Whether a position does not part a carriage return from its line feed.
pub open spec fn is_whole(t: Seq<char>, at: int) -> bool {
    at <= end_of_line(t, line_at(t, at))
}

/// A server that follows the edits it is told of has the text that they made,
/// so long as none of them parts a carriage return from its line feed.
pub proof fn law_a_server_that_follows_has_the_text(
    t: Seq<char>,
    cs: Seq<Patch>,
    edits: Seq<AppliedEdit>,
    n: int,
)
    requires
        recounts(edits, t, cs),
        0 <= n <= edits.len(),
        forall|k: int|
            0 <= k < edits.len() ==> 0 <= (#[trigger] edits[k]).from <= edits[k].to && is_whole(
                made(t, cs, k as nat),
                edits[k].from as int,
            ) && is_whole(made(t, cs, k as nat), edits[k].to as int),
    ensures
        followed(t, edits, n) == made(t, cs, n as nat),
        n == edits.len() ==> followed(t, edits, n) == crate::change::changed(t, cs),
    decreases n,
{
    if n > 0 {
        law_a_server_that_follows_has_the_text(t, cs, edits, n - 1);
        let had = made(t, cs, (n - 1) as nat);
        let e = edits[n - 1];
        let c = cs[cs.len() - n];
        assert(describes(e, had, cs[cs.len() - 1 - (n - 1)]));
        law_a_position_survives_the_language_server(had, e.from as int);
        law_a_position_survives_the_language_server(had, e.to as int);
        let told = Patch { from: e.from as int, to: e.to as int, text: e.text@ };
        assert(begins(had, told) == begins(had, c) && stops(had, told) == stops(had, c));
        assert(edited(had, told) == edited(had, c));
    }
}

} // verus!
