//! What language servers offer to do about a piece of a file.
use vstd::prelude::*;

use crate::diagnose::{
    diagnostic_to_lsp, place, point_value, range_value, say_range, trouble_value,
};
use crate::doc::{Diagnostic, Document};
use crate::json::{add_field, add_item, each, fields, list, object, string, Json, Value};
use crate::lsp::{offers, Ask, Asked, ServerId, Serving};
use crate::servers::{
    able, all_able, file_value, pool, rest_same, say_file, server_place, servers_for, with_question,
    Servers,
};
use crate::strings::maybe_text;
use crate::text::Range;

verus! {

/// Whether two ranges share a character or touch.
pub open spec fn meet(a: Range, b: Range) -> bool {
    a.lo() <= b.hi() && b.lo() <= a.hi()
}

/// The problems among the first `n` that a range meets, as servers write
/// them.
pub open spec fn troubles_met(ds: Seq<Diagnostic>, range: Range, t: Seq<char>, n: int) -> Seq<Value>
    decreases n,
{
    if n <= 0 {
        Seq::empty()
    } else if meet(ds[n - 1].range, range) {
        troubles_met(ds, range, t, n - 1).push(trouble_value(ds[n - 1], t))
    } else {
        troubles_met(ds, range, t, n - 1)
    }
}

/// What is said in a question about what can be done: everything, or only what
/// is of one kind.
pub open spec fn actions_value(
    path: Seq<char>,
    range: Value,
    troubles: Seq<Value>,
    kind: Option<Seq<char>>,
) -> Value {
    let base = seq![("diagnostics"@, Value::List(troubles))];
    let context = match kind {
        Some(kind) => base.push(("only"@, Value::List(seq![Value::Text(kind)]))).push(
            ("triggerKind"@, Value::Natural(2)),
        ),
        None => base,
    };
    Value::Object(
        seq![
            ("textDocument"@, file_value(path)),
            ("range"@, range),
            ("context"@, Value::Object(context)),
        ],
    )
}

/// Servers of which the first `n` of a list have been asked the same.
pub open spec fn all_asked(
    ss: Seq<Serving>,
    ids: Seq<ServerId>,
    params: Value,
    ask: Asked,
    n: int,
) -> Seq<Serving>
    decreases n,
{
    if n <= 0 {
        ss
    } else {
        with_question(
            all_asked(ss, ids, params, ask, n - 1),
            ids[n - 1],
            "textDocument/codeAction"@,
            params,
            ask,
        )
    }
}

/// The servers that say what can be done about a document.
pub open spec fn actors(ss: Seq<Serving>, doc: Document) -> Seq<ServerId> {
    let ids = servers_for(ss, maybe_text(doc.path));
    all_able(ss, ids, "codeActionProvider"@, ids.len() as int)
}

/// Servers after a question about what can be done about a range.
pub open spec fn actions_asked(
    ss: Seq<Serving>,
    doc: Document,
    range: Range,
    kind: Option<Seq<char>>,
    ask: Asked,
) -> Seq<Serving> {
    let t = doc.content();
    match doc.path {
        Some(path) => all_asked(
            ss,
            actors(ss, doc),
            actions_value(
                path@,
                range_value(place(t, range.lo()), place(t, range.hi())),
                troubles_met(doc.diagnostics@, range, t, doc.diagnostics@.len() as int),
                kind,
            ),
            ask,
            actors(ss, doc).len() as int,
        ),
        None => ss,
    }
}

/// The range of a whole text, as a server writes it.
pub open spec fn whole_range(t: Seq<char>) -> Value {
    Value::Object(
        seq![
            (
                "start"@,
                Value::Object(
                    seq![("line"@, Value::Natural(0)), ("character"@, Value::Natural(0))],
                ),
            ),
            ("end"@, point_value(place(t, t.len() as int))),
        ],
    )
}

/// What every problem of a document is, as servers write them.
pub open spec fn all_troubles(ds: Seq<Diagnostic>, t: Seq<char>) -> Seq<Value> {
    ds.map_values(|d: Diagnostic| trouble_value(d, t))
}

fn say_met(doc: &Document, range: Range) -> (v: Vec<Json>)
    ensures
        each(v@) == troubles_met(
            doc.diagnostics@,
            range,
            doc.content(),
            doc.diagnostics@.len() as int,
        ),
{
    let ghost ds = doc.diagnostics@;
    let ghost t = doc.content();
    let mut v: Vec<Json> = Vec::new();
    let mut n: usize = 0;
    assert(each(v@) =~= troubles_met(ds, range, t, 0));
    while n < doc.diagnostics.len()
        invariant
            n <= doc.diagnostics@.len(),
            ds == doc.diagnostics@,
            t == doc.content(),
            each(v@) == troubles_met(ds, range, t, n as int),
        decreases doc.diagnostics@.len() - n,
    {
        if doc.diagnostics[n].range.overlaps(&range) {
            add_item(&mut v, diagnostic_to_lsp(&doc.diagnostics[n], doc));
        }
        n = n + 1;
    }
    v
}

fn say_all(doc: &Document) -> (v: Vec<Json>)
    ensures
        each(v@) == all_troubles(doc.diagnostics@, doc.content()),
{
    let ghost want = all_troubles(doc.diagnostics@, doc.content());
    let mut v: Vec<Json> = Vec::new();
    let mut n: usize = 0;
    assert(each(v@) =~= want.take(0));
    while n < doc.diagnostics.len()
        invariant
            n <= doc.diagnostics@.len(),
            want == all_troubles(doc.diagnostics@, doc.content()),
            each(v@) == want.take(n as int),
        decreases doc.diagnostics@.len() - n,
    {
        add_item(&mut v, diagnostic_to_lsp(&doc.diagnostics[n], doc));
        assert(want.take(n + 1) =~= want.take(n as int).push(want[n as int]));
        n = n + 1;
    }
    assert(want.take(n as int) =~= want);
    v
}

fn say_actions(path: &str, range: Json, troubles: Vec<Json>, kind: Option<&str>) -> (j: Json)
    ensures
        j@ == actions_value(
            path@,
            range@,
            each(troubles@),
            match kind {
                Some(kind) => Some(kind@),
                None => None,
            },
        ),
{
    let ghost said = each(troubles@);
    let ghost at = range@;
    let mut context: Vec<(String, Json)> = Vec::new();
    add_field(&mut context, "diagnostics", list(troubles));
    assert(fields(context@) =~= seq![("diagnostics"@, Value::List(said))]);
    if let Some(kind) = kind {
        let mut kinds: Vec<Json> = Vec::new();
        add_item(&mut kinds, string(kind));
        assert(each(kinds@) =~= seq![Value::Text(kind@)]);
        add_field(&mut context, "only", list(kinds));
        add_field(&mut context, "triggerKind", Json::Natural(2));
    }
    let mut fs: Vec<(String, Json)> = Vec::new();
    let ghost inner = fields(context@);
    add_field(&mut fs, "textDocument", say_file(path));
    add_field(&mut fs, "range", range);
    add_field(&mut fs, "context", object(context));
    let j = object(fs);
    assert(j@->Object_0 =~= seq![
        ("textDocument"@, file_value(path@)),
        ("range"@, at),
        ("context"@, Value::Object(inner)),
    ]);
    j
}

fn say_whole(doc: &Document) -> (j: Json)
    ensures
        j@ == whole_range(doc.content()),
{
    let ghost t = doc.content();
    let end = doc.rope.len_chars();
    let point = doc.lsp_point_at(end);
    let mut start: Vec<(String, Json)> = Vec::new();
    add_field(&mut start, "line", Json::Natural(0));
    add_field(&mut start, "character", Json::Natural(0));
    let first = object(start);
    assert(first@->Object_0 =~= whole_range(t)->Object_0[0].1->Object_0);
    let mut fs: Vec<(String, Json)> = Vec::new();
    add_field(&mut fs, "start", first);
    add_field(
        &mut fs,
        "end",
        crate::diagnose::say_point(point, Ghost(place(t, t.len() as int))),
    );
    let j = object(fs);
    assert(j@->Object_0 =~= whole_range(t)->Object_0);
    j
}

proof fn lemma_same_place(ss: Seq<Serving>, tt: Seq<Serving>, id: ServerId, i: int)
    requires
        ss.len() == tt.len(),
        forall|k: int| 0 <= k < ss.len() ==> (#[trigger] ss[k]).id == tt[k].id,
    ensures
        server_place(ss, id, i) == server_place(tt, id, i),
    decreases ss.len() - i,
{
    if 0 <= i < ss.len() {
        assert(ss[i].id == tt[i].id);
        if ss[i].id != id {
            lemma_same_place(ss, tt, id, i + 1);
        }
    }
}

proof fn lemma_all_asked(ss: Seq<Serving>, ids: Seq<ServerId>, params: Value, ask: Asked, n: int)
    ensures
        all_asked(ss, ids, params, ask, n).len() == ss.len(),
        forall|k: int|
            0 <= k < ss.len() ==> (#[trigger] all_asked(ss, ids, params, ask, n)[k]).id == ss[k].id,
    decreases n,
{
    if n > 0 {
        lemma_all_asked(ss, ids, params, ask, n - 1);
        let less = all_asked(ss, ids, params, ask, n - 1);
        let at = server_place(less, ids[n - 1], 0);
        lemma_place(less, ids[n - 1], 0);
        assert forall|k: int| 0 <= k < ss.len() implies (#[trigger] all_asked(
            ss,
            ids,
            params,
            ask,
            n,
        )[k]).id == ss[k].id by {
            assert(less[k].id == ss[k].id);
        }
    }
}

proof fn lemma_place(ss: Seq<Serving>, id: ServerId, i: int)
    requires
        0 <= i <= ss.len(),
    ensures
        i <= server_place(ss, id, i) <= ss.len(),
    decreases ss.len() - i,
{
    if i < ss.len() && ss[i].id != id {
        lemma_place(ss, id, i + 1);
    }
}

proof fn lemma_all_able(
    ss: Seq<Serving>,
    ids: Seq<ServerId>,
    capability: Seq<char>,
    n: int,
    k: int,
)
    requires
        0 <= k < all_able(ss, ids, capability, n).len(),
    ensures
        able(ss, all_able(ss, ids, capability, n)[k], capability),
    decreases n,
{
    if n > 0 {
        let less = all_able(ss, ids, capability, n - 1);
        if k < less.len() {
            lemma_all_able(ss, ids, capability, n - 1, k);
        }
    }
}

impl Servers {
    /// What the servers offer to do about a selection. All of those that can
    /// answer are asked; which ones those were is answered.
    pub fn code_actions(&mut self, doc: &Document, range: Range) -> (ids: Vec<ServerId>)
        ensures
            ids@ == match doc.path {
                Some(_) => actors(pool(*old(self)), *doc),
                None => Seq::empty(),
            },
            pool(*final(self)) == actions_asked(
                pool(*old(self)),
                *doc,
                range,
                None,
                Asked::CodeActions(doc.id, range.lo() as usize),
            ),
            rest_same(*final(self), *old(self)),
    {
        self.ask_actions(doc, range, false)
    }

    /// Only the fixes: what a server would do about a problem, and nothing
    /// about what is already fine.
    pub fn quick_fixes(&mut self, doc: &Document, range: Range) -> (ids: Vec<ServerId>)
        ensures
            ids@ == match doc.path {
                Some(_) => actors(pool(*old(self)), *doc),
                None => Seq::empty(),
            },
            pool(*final(self)) == actions_asked(
                pool(*old(self)),
                *doc,
                range,
                Some("quickfix"@),
                Asked::QuickFixes(doc.id, range.lo() as usize),
            ),
            rest_same(*final(self), *old(self)),
    {
        self.ask_actions(doc, range, true)
    }

    fn ask_actions(&mut self, doc: &Document, range: Range, fixes: bool) -> (ids: Vec<ServerId>)
        ensures
            ids@ == match doc.path {
                Some(_) => actors(pool(*old(self)), *doc),
                None => Seq::empty(),
            },
            pool(*final(self)) == actions_asked(
                pool(*old(self)),
                *doc,
                range,
                if fixes {
                    Some("quickfix"@)
                } else {
                    None
                },
                if fixes {
                    Asked::QuickFixes(doc.id, range.lo() as usize)
                } else {
                    Asked::CodeActions(doc.id, range.lo() as usize)
                },
            ),
            rest_same(*final(self), *old(self)),
    {
        let path = match &doc.path {
            Some(path) => path,
            None => {
                return Vec::new();
            },
        };
        let ghost ss = pool(*self);
        let ids = self.who_all_can(doc, "codeActionProvider");
        let kind: Option<&str> = if fixes {
            Some("quickfix")
        } else {
            None
        };
        let params = say_actions(
            path.as_str(),
            say_range(doc, range.start(), range.end()),
            say_met(doc, range),
            kind,
        );
        let at = range.start();
        let ghost ask = if fixes {
            Asked::QuickFixes(doc.id, at)
        } else {
            Asked::CodeActions(doc.id, at)
        };
        let mut n: usize = 0;
        while n < ids.len()
            invariant
                n <= ids@.len(),
                pool(*self) == all_asked(ss, ids@, params@, ask, n as int),
                ask == if fixes {
                    Asked::QuickFixes(doc.id, at)
                } else {
                    Asked::CodeActions(doc.id, at)
                },
                rest_same(*self, *old(self)),
            decreases ids@.len() - n,
        {
            let question = if fixes {
                Ask::QuickFixes { doc: doc.id, at }
            } else {
                Ask::CodeActions { doc: doc.id, at }
            };
            self.ask(ids[n], "textDocument/codeAction", params.clone(), question);
            n = n + 1;
        }
        ids
    }

    /// Ask one server what it would change in a whole file, of one kind. One
    /// that does not say what can be done is not asked.
    pub fn source_action(&mut self, doc: &Document, kind: &str, id: ServerId) -> (yes: bool)
        ensures
            yes == (doc.path is Some && able(pool(*old(self)), id, "codeActionProvider"@)),
            pool(*final(self)) == match doc.path {
                Some(path) => if able(pool(*old(self)), id, "codeActionProvider"@) {
                    with_question(
                        pool(*old(self)),
                        id,
                        "textDocument/codeAction"@,
                        actions_value(
                            path@,
                            whole_range(doc.content()),
                            all_troubles(doc.diagnostics@, doc.content()),
                            Some(kind@),
                        ),
                        Asked::SourceActions(doc.id, doc.version),
                    )
                } else {
                    pool(*old(self))
                },
                None => pool(*old(self)),
            },
            rest_same(*final(self), *old(self)),
    {
        let path = match &doc.path {
            Some(path) => path,
            None => {
                return false;
            },
        };
        if !self.is_able(id, "codeActionProvider") {
            return false;
        }
        let params = say_actions(path.as_str(), say_whole(doc), say_all(doc), Some(kind));
        let ask = Ask::SourceActions { doc: doc.id, version: doc.version };
        self.ask(id, "textDocument/codeAction", params, ask)
    }
}

proof fn lemma_unasked(
    ss: Seq<Serving>,
    ids: Seq<ServerId>,
    params: Value,
    ask: Asked,
    n: int,
    k: int,
)
    requires
        n <= ids.len(),
        forall|i: int|
            0 <= i < ids.len() ==> able(ss, #[trigger] ids[i], "codeActionProvider"@),
        0 <= k < ss.len(),
        !offers(ss[k].capabilities, "codeActionProvider"@),
    ensures
        all_asked(ss, ids, params, ask, n)[k] == ss[k],
    decreases n,
{
    if n > 0 {
        let less = all_asked(ss, ids, params, ask, n - 1);
        lemma_unasked(ss, ids, params, ask, n - 1, k);
        lemma_all_asked(ss, ids, params, ask, n - 1);
        assert forall|i: int| 0 <= i < less.len() implies (#[trigger] less[i]).id == ss[i].id by {}
        lemma_same_place(less, ss, ids[n - 1], 0);
        lemma_place(ss, ids[n - 1], 0);
        assert(able(ss, ids[n - 1], "codeActionProvider"@));
    }
}

/// Nobody is asked what can be done who did not say that they can answer.
pub proof fn law_only_those_who_can_are_asked(
    ss: Seq<Serving>,
    doc: Document,
    range: Range,
    kind: Option<Seq<char>>,
    ask: Asked,
    k: int,
)
    requires
        0 <= k < ss.len(),
        !offers(ss[k].capabilities, "codeActionProvider"@),
    ensures
        actions_asked(ss, doc, range, kind, ask)[k] == ss[k],
{
    let ids = servers_for(ss, maybe_text(doc.path));
    let who = actors(ss, doc);
    assert forall|i: int| 0 <= i < who.len() implies able(
        ss,
        #[trigger] who[i],
        "codeActionProvider"@,
    ) by {
        lemma_all_able(ss, ids, "codeActionProvider"@, ids.len() as int, i);
    }
    if let Some(path) = doc.path {
        let t = doc.content();
        let params = actions_value(
            path@,
            range_value(place(t, range.lo()), place(t, range.hi())),
            troubles_met(doc.diagnostics@, range, t, doc.diagnostics@.len() as int),
            kind,
        );
        lemma_unasked(ss, who, params, ask, who.len() as int, k);
    }
}

} // verus!
