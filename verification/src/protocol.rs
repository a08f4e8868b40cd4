//! What is said to language servers, read back: by the names and the counting
//! that the protocol has, with what reads their own messages.
use vstd::prelude::*;

use crate::actions::actions_value;
use crate::attach::merged;
use crate::change::{edited, Patch};
use crate::client::only;
use crate::diagnose::{
    badness, place, point_in, point_value, position, range_value, trouble_in, trouble_value,
};
use crate::doc::{
    law_a_position_survives_the_language_server, recounts, units_between, AppliedEdit, Diagnostic,
    Document, Severity,
};
use crate::json::{field, field_in, int_in, list_in, nat_in, place_of, text_in, with_field, Value};
use crate::lsp::{goto_capability, goto_method, sync_in, Asked, Goto, ServerId, Serving, Sync};
use crate::path::among;
use crate::rope::{line_at, line_count, start_of_line};
use crate::rpc::Sent;
use crate::servers::{
    answerer, at_place, attached, completion_context, file_value, format_value, handles,
    opened_value, placed_question, server_place, servers_for,
};
use crate::strings::maybe_text;
use crate::telling::{
    change_value, changed, edit_value, followed, law_a_server_that_follows_has_the_text, ranged,
    saved_value, spot, with_change,
};
use crate::text::{end_of_line, lemma_line_of};
use crate::uri::uri;

verus! {

// ---------------------------------------------------------------------------
// Fields
// ---------------------------------------------------------------------------

/// A field that no other of the same name comes before is the one that is read.
pub proof fn lemma_field_at(fs: Seq<(Seq<char>, Value)>, key: Seq<char>, i: int, k: int)
    requires
        0 <= i <= k < fs.len(),
        fs[k].0 == key,
        forall|j: int| i <= j < k ==> (#[trigger] fs[j]).0 != key,
    ensures
        place_of(fs, key, i) == k,
        i == 0 ==> field(Value::Object(fs), key) == Some(fs[k].1),
    decreases k - i,
{
    if i < k {
        lemma_field_at(fs, key, i + 1, k);
    }
}

proof fn lemma_place_of(fs: Seq<(Seq<char>, Value)>, key: Seq<char>, i: int)
    requires
        0 <= i <= fs.len(),
    ensures
        i <= place_of(fs, key, i) <= fs.len(),
        forall|j: int| i <= j < place_of(fs, key, i) ==> (#[trigger] fs[j]).0 != key,
        place_of(fs, key, i) < fs.len() ==> fs[place_of(fs, key, i)].0 == key,
    decreases fs.len() - i,
{
    if i < fs.len() && fs[i].0 != key {
        lemma_place_of(fs, key, i + 1);
    }
}

/// A field that was set reads back, and no other is touched by it.
pub proof fn law_a_field_reads_back(
    fs: Seq<(Seq<char>, Value)>,
    key: Seq<char>,
    v: Value,
    other: Seq<char>,
)
    ensures
        field(Value::Object(with_field(fs, key, v)), key) == Some(v),
        other != key ==> field(Value::Object(with_field(fs, key, v)), other) == field(
            Value::Object(fs),
            other,
        ),
{
    let at = place_of(fs, key, 0);
    let more = with_field(fs, key, v);
    lemma_place_of(fs, key, 0);
    lemma_place_of(fs, other, 0);
    assert forall|j: int| 0 <= j < at implies (#[trigger] more[j]).0 != key by {
        assert(more[j] == fs[j]);
    }
    lemma_field_at(more, key, 0, at);
    if other != key {
        let p = place_of(fs, other, 0);
        if p < fs.len() {
            assert forall|j: int| 0 <= j < p implies (#[trigger] more[j]).0 != other by {
                assert(fs[j].0 != other);
            }
            assert(more[p].0 == other);
            lemma_field_at(more, other, 0, p);
            assert(more[p].1 == fs[p].1);
        } else {
            lemma_place_of(more, other, 0);
            let q = place_of(more, other, 0);
            if q < more.len() {
                if q < fs.len() {
                    assert(fs[q].0 != other);
                    assert(more[q].0 == fs[q].0);
                }
            }
        }
    }
}

proof fn lemma_merged_keeps(
    fs: Seq<(Seq<char>, Value)>,
    over: Seq<(Seq<char>, Value)>,
    n: int,
    key: Seq<char>,
)
    requires
        0 <= n <= over.len(),
        forall|i: int| 0 <= i < n ==> (#[trigger] over[i]).0 != key,
    ensures
        field(Value::Object(merged(fs, over, n)), key) == field(Value::Object(fs), key),
    decreases n,
{
    if n > 0 {
        lemma_merged_keeps(fs, over, n - 1, key);
        assert(over[n - 1].0 != key);
        law_a_field_reads_back(merged(fs, over, n - 1), over[n - 1].0, over[n - 1].1, key);
    }
}

/// What is folded into an object reads back from it, and what is not spoken of
/// stays: one field more or less of it is the last that has the name.
pub proof fn law_what_is_folded_in_reads_back(
    fs: Seq<(Seq<char>, Value)>,
    over: Seq<(Seq<char>, Value)>,
    k: int,
)
    requires
        0 <= k < over.len(),
        forall|i: int| k < i < over.len() ==> (#[trigger] over[i]).0 != over[k].0,
    ensures
        field(Value::Object(merged(fs, over, over.len() as int)), over[k].0) == Some(over[k].1),
{
    lemma_merged_from(fs, over, k, over.len() as int);
}

proof fn lemma_merged_from(
    fs: Seq<(Seq<char>, Value)>,
    over: Seq<(Seq<char>, Value)>,
    k: int,
    n: int,
)
    requires
        0 <= k < n <= over.len(),
        forall|i: int| k < i < n ==> (#[trigger] over[i]).0 != over[k].0,
    ensures
        field(Value::Object(merged(fs, over, n)), over[k].0) == Some(over[k].1),
    decreases n,
{
    law_a_field_reads_back(merged(fs, over, n - 1), over[n - 1].0, over[n - 1].1, over[k].0);
    if k < n - 1 {
        assert(over[n - 1].0 != over[k].0);
        lemma_merged_from(fs, over, k, n - 1);
    }
}

proof fn lemma_names()
    ensures
        "line"@ != "character"@,
        "start"@ != "end"@,
        "position"@ != "textDocument"@,
        "uri"@ != "version"@,
        "uri"@ != "languageId"@,
        "uri"@ != "text"@,
        "languageId"@ != "version"@,
        "languageId"@ != "text"@,
        "version"@ != "text"@,
        "textDocument"@ != "contentChanges"@,
        "textDocument"@ != "options"@,
        "textDocument"@ != "text"@,
        "textDocument"@ != "range"@,
        "textDocument"@ != "context"@,
        "range"@ != "context"@,
        "range"@ != "text"@,
        "tabSize"@ != "insertSpaces"@,
        "newName"@ != "position"@,
        "newName"@ != "textDocument"@,
        "context"@ != "position"@,
        "triggerKind"@ != "triggerCharacter"@,
        "diagnostics"@ != "only"@,
        "range"@ != "severity"@,
        "range"@ != "message"@,
        "range"@ != "source"@,
        "range"@ != "code"@,
        "severity"@ != "message"@,
        "severity"@ != "source"@,
        "severity"@ != "code"@,
        "message"@ != "source"@,
        "message"@ != "code"@,
        "source"@ != "code"@,
        "data"@ != "range"@,
        "data"@ != "severity"@,
        "data"@ != "message"@,
        "data"@ != "source"@,
        "data"@ != "code"@,
{
    reveal_strlit("line");
    reveal_strlit("character");
    reveal_strlit("start");
    reveal_strlit("end");
    reveal_strlit("position");
    reveal_strlit("textDocument");
    reveal_strlit("uri");
    reveal_strlit("version");
    reveal_strlit("languageId");
    reveal_strlit("text");
    reveal_strlit("contentChanges");
    reveal_strlit("options");
    reveal_strlit("range");
    reveal_strlit("context");
    reveal_strlit("tabSize");
    reveal_strlit("insertSpaces");
    reveal_strlit("newName");
    reveal_strlit("triggerKind");
    reveal_strlit("triggerCharacter");
    reveal_strlit("diagnostics");
    reveal_strlit("only");
    reveal_strlit("severity");
    reveal_strlit("message");
    reveal_strlit("source");
    reveal_strlit("code");
    reveal_strlit("data");
    assert("line"@.len() == 4 && "character"@.len() == 9);
    assert("start"@.len() == 5 && "end"@.len() == 3);
    assert("position"@.len() == 8 && "textDocument"@.len() == 12);
    assert("uri"@.len() == 3 && "version"@.len() == 7 && "languageId"@.len() == 10);
    assert("text"@.len() == 4 && "contentChanges"@.len() == 14 && "options"@.len() == 7);
    assert("range"@.len() == 5 && "context"@.len() == 7 && "tabSize"@.len() == 7);
    assert("insertSpaces"@.len() == 12 && "newName"@.len() == 7);
    assert("triggerKind"@.len() == 11 && "triggerCharacter"@.len() == 16);
    assert("diagnostics"@.len() == 11 && "only"@.len() == 4);
    assert("severity"@.len() == 8 && "message"@.len() == 7 && "source"@.len() == 6);
    assert("code"@.len() == 4 && "data"@.len() == 4);
    assert("code"@[0] == 'c' && "data"@[0] == 'd');
}

// ---------------------------------------------------------------------------
// Places
// ---------------------------------------------------------------------------

/// Whether a text is one whose places a machine can count in 16-bit units.
pub open spec fn countable(t: Seq<char>) -> bool {
    t.len() * 2 < usize::MAX
}

proof fn lemma_units(t: Seq<char>, from: int, to: int)
    requires
        0 <= from <= to,
    ensures
        to - from <= units_between(t, from, to) <= 2 * (to - from),
    decreases to - from,
{
    if from < to {
        lemma_units(t, from, to - 1);
    }
}

proof fn lemma_lines_counted(t: Seq<char>, i: int)
    requires
        0 <= i,
    ensures
        line_at(t, i) <= i,
    decreases i,
{
    if i > 0 {
        lemma_lines_counted(t, i - 1);
    }
}

/// The column that a server is told goes up by two over a character that UTF-16
/// has two units for, and by one over any other, and is nought where a line
/// begins.
pub proof fn law_columns_are_counted_in_units(t: Seq<char>, line: nat, at: int)
    requires
        line < line_count(t),
        start_of_line(t, line) <= at < end_of_line(t, line),
    ensures
        place(t, start_of_line(t, line)) == (line as int, 0int),
        place(t, at).0 == line,
        place(t, at + 1).0 == line,
        place(t, at + 1).1 == place(t, at).1 + if (t[at] as u32) >= 0x1_0000 { 2int } else { 1int },
{
    crate::text::lemma_line_bounds(t, line);
    crate::text::lemma_on_line(t, line, start_of_line(t, line));
    crate::text::lemma_on_line(t, line, at);
    crate::text::lemma_on_line(t, line, at + 1);
}

/// A place that a server is told reads back as the position that it is of, by the
/// rule that its own places are read by, unless it lies in a line ending.
pub proof fn law_a_place_reads_back(t: Seq<char>, at: int)
    requires
        0 <= at <= t.len(),
        at <= end_of_line(t, line_at(t, at)),
        countable(t),
    ensures
        point_in(point_value(place(t, at))) is Some,
        position(t, point_in(point_value(place(t, at)))->0) == at,
{
    lemma_names();
    let p = place(t, at);
    let fs = seq![
        ("line"@, Value::Natural(p.0 as u64)),
        ("character"@, Value::Natural(p.1 as u64)),
    ];
    lemma_field_at(fs, "line"@, 0, 0);
    lemma_field_at(fs, "character"@, 0, 1);
    lemma_line_of(t, at);
    lemma_lines_counted(t, at);
    crate::text::lemma_line_bounds(t, line_at(t, at));
    lemma_units(t, start_of_line(t, line_at(t, at)), at);
    law_a_position_survives_the_language_server(t, at);
}

/// The two ends of a range read back.
pub proof fn law_a_range_reads_back(t: Seq<char>, from: int, to: int)
    requires
        0 <= from <= t.len(),
        0 <= to <= t.len(),
        from <= end_of_line(t, line_at(t, from)),
        to <= end_of_line(t, line_at(t, to)),
        countable(t),
    ensures
        ({
            let r = range_value(place(t, from), place(t, to));
            &&& field(r, "start"@) is Some
            &&& field(r, "end"@) is Some
            &&& point_in(field(r, "start"@)->0) is Some
            &&& point_in(field(r, "end"@)->0) is Some
            &&& position(t, point_in(field(r, "start"@)->0)->0) == from
            &&& position(t, point_in(field(r, "end"@)->0)->0) == to
        }),
{
    lemma_names();
    law_a_place_reads_back(t, from);
    law_a_place_reads_back(t, to);
    let fs = seq![
        ("start"@, point_value(place(t, from))),
        ("end"@, point_value(place(t, to))),
    ];
    lemma_field_at(fs, "start"@, 0, 0);
    lemma_field_at(fs, "end"@, 0, 1);
}

// ---------------------------------------------------------------------------
// Questions
// ---------------------------------------------------------------------------

/// Whether what is added to a question does not take the place of what every
/// question says.
pub open spec fn adds(extra: Value) -> bool {
    match extra {
        Value::Object(o) => forall|i: int|
            0 <= i < o.len() ==> (#[trigger] o[i]).0 != "position"@ && o[i].0 != "textDocument"@,
        _ => true,
    }
}

/// Whether parameters are about a position of a file.
pub open spec fn is_about(params: Value, path: Seq<char>, t: Seq<char>, at: int) -> bool {
    let p = field(params, "position"@);
    &&& text_in(field_in(field(params, "textDocument"@), "uri"@)) == Some(uri(path))
    &&& p is Some
    &&& point_in(p->0) is Some
    &&& position(t, point_in(p->0)->0) == at
}

/// A question about a place names the file, and its position reads back as the
/// position that was asked about. What is added to it is there too.
pub proof fn law_a_question_is_about_its_place(
    path: Seq<char>,
    t: Seq<char>,
    at: int,
    extra: Value,
    k: int,
)
    requires
        0 <= at <= t.len(),
        at <= end_of_line(t, line_at(t, at)),
        countable(t),
        adds(extra),
    ensures
        is_about(at_place(path, place(t, at), extra), path, t, at),
        match extra {
            Value::Object(o) => 0 <= k < o.len() && (forall|i: int|
                k < i < o.len() ==> (#[trigger] o[i]).0 != o[k].0) ==> field(
                at_place(path, place(t, at), extra),
                o[k].0,
            ) == Some(o[k].1),
            _ => true,
        },
{
    lemma_names();
    law_a_place_reads_back(t, at);
    let base = seq![
        ("textDocument"@, file_value(path)),
        ("position"@, point_value(place(t, at))),
    ];
    lemma_field_at(base, "textDocument"@, 0, 0);
    lemma_field_at(base, "position"@, 0, 1);
    lemma_field_at(seq![("uri"@, Value::Text(uri(path)))], "uri"@, 0, 0);
    match extra {
        Value::Object(o) => {
            let n = o.len() as int;
            assert forall|i: int| 0 <= i < n implies (#[trigger] o[i]).0 != "position"@ by {}
            assert forall|i: int| 0 <= i < n implies (#[trigger] o[i]).0 != "textDocument"@ by {}
            lemma_merged_keeps(base, o, n, "position"@);
            lemma_merged_keeps(base, o, n, "textDocument"@);
            if 0 <= k < n && forall|i: int| k < i < n ==> (#[trigger] o[i]).0 != o[k].0 {
                law_what_is_folded_in_reads_back(base, o, k);
            }
        },
        _ => {},
    }
}

proof fn lemma_server_place(ss: Seq<Serving>, id: ServerId, i: int)
    requires
        0 <= i <= ss.len(),
    ensures
        i <= server_place(ss, id, i) <= ss.len(),
        server_place(ss, id, i) < ss.len() ==> ss[server_place(ss, id, i)].id == id,
    decreases ss.len() - i,
{
    if i < ss.len() && ss[i].id != id {
        lemma_server_place(ss, id, i + 1);
    }
}

/// Whether one server of some, and no other, has been sent one request more.
pub open spec fn asked_one(
    ss: Seq<Serving>,
    now: Seq<Serving>,
    at: int,
    method: Seq<char>,
    params: Value,
    ask: Asked,
) -> bool {
    &&& 0 <= at < ss.len() == now.len()
    &&& forall|i: int| 0 <= i < ss.len() && i != at ==> #[trigger] now[i] == ss[i]
    &&& now[at].peer.sending == ss[at].peer.sending.push(
        Sent::Request(ss[at].peer.next, method, params),
    )
    &&& now[at].peer.waiting == ss[at].peer.waiting.push((ss[at].peer.next, ask))
    &&& now[at].open == ss[at].open && now[at].state == ss[at].state
}

/// A question about a place of a document goes to one server that has the file
/// open, is ready and said that it can answer, as one request about that place.
/// Where there is none, nobody is asked.
pub proof fn law_a_question_about_a_place_is_asked_once(
    ss: Seq<Serving>,
    doc: Document,
    at: int,
    method: Seq<char>,
    capability: Seq<char>,
    ask: Asked,
    extra: Value,
)
    requires
        0 <= at <= doc.content().len(),
        at <= end_of_line(doc.content(), line_at(doc.content(), at)),
        countable(doc.content()),
        adds(extra),
    ensures
        ({
            let now = placed_question(ss, doc, at, method, capability, ask, extra);
            match (answerer(ss, maybe_text(doc.path), capability), doc.path) {
                (Some(id), Some(path)) => exists|k: int, params: Value|
                    {
                        &&& #[trigger] asked_one(ss, now, k, method, params, ask)
                        &&& ss[k].id == id
                        &&& crate::lsp::offers(ss[k].capabilities, capability)
                        &&& is_about(params, path@, doc.content(), at)
                    },
                _ => now == ss,
            }
        }),
{
    let t = doc.content();
    match (answerer(ss, maybe_text(doc.path), capability), doc.path) {
        (Some(id), Some(path)) => {
            law_a_question_is_about_its_place(path@, t, at, extra, -1);
            crate::servers::law_a_question_goes_to_one_that_can_answer(
                ss,
                maybe_text(doc.path),
                capability,
            );
            lemma_server_place(ss, id, 0);
            let k = server_place(ss, id, 0);
            let params = at_place(path@, place(t, at), extra);
            let now = placed_question(ss, doc, at, method, capability, ask, extra);
            assert(asked_one(ss, now, k, method, params, ask));
        },
        _ => {},
    }
}

proof fn lemma_attached(ss: Seq<Serving>, path: Seq<char>, n: int, i: int)
    requires
        0 <= n <= ss.len(),
        0 <= i < attached(ss, path, n).len(),
    ensures
        exists|k: int|
            0 <= k < n && (#[trigger] ss[k]).id == attached(ss, path, n)[i] && ss[k].state is Ready
                && among(ss[k].open, path),
    decreases n,
{
    if n > 0 {
        let less = attached(ss, path, n - 1);
        if i < less.len() {
            lemma_attached(ss, path, n - 1, i);
        } else {
            assert(ss[n - 1].id == attached(ss, path, n)[i]);
        }
    }
}

/// The servers of a document are some that are ready and have been told of it,
/// each of them that is.
pub proof fn law_the_servers_of_a_file_know_it(ss: Seq<Serving>, path: Seq<char>, i: int)
    ensures
        0 <= i < servers_for(ss, Some(path)).len() ==> exists|k: int|
            0 <= k < ss.len() && (#[trigger] ss[k]).id == servers_for(ss, Some(path))[i]
                && ss[k].state is Ready && among(ss[k].open, path),
        0 <= i < ss.len() && ss[i].state is Ready && among(ss[i].open, path) ==> servers_for(
            ss,
            Some(path),
        ).contains(ss[i].id),
{
    let n = ss.len() as int;
    if 0 <= i < servers_for(ss, Some(path)).len() {
        lemma_attached(ss, path, n, i);
    }
    if 0 <= i < n && ss[i].state is Ready && among(ss[i].open, path) {
        lemma_attached_all(ss, path, n, i);
    }
}

proof fn lemma_attached_all(ss: Seq<Serving>, path: Seq<char>, n: int, k: int)
    requires
        0 <= k < n <= ss.len(),
        handles(ss[k], path),
    ensures
        attached(ss, path, n).contains(ss[k].id),
    decreases n,
{
    let less = attached(ss, path, n - 1);
    let all = attached(ss, path, n);
    if k < n - 1 {
        lemma_attached_all(ss, path, n - 1, k);
        let j = choose|j: int| 0 <= j < less.len() && less[j] == ss[k].id;
        assert(all[j] == ss[k].id);
    } else {
        assert(all[less.len() as int] == ss[k].id);
    }
}

/// What kinds of question there are about where something is, and what a server
/// says that it has for each, by the protocol's names.
pub proof fn law_questions_have_their_names()
    ensures
        goto_method(Goto::Definition) == "textDocument/definition"@,
        goto_method(Goto::Type) == "textDocument/typeDefinition"@,
        goto_method(Goto::Implementation) == "textDocument/implementation"@,
        goto_capability(Goto::Definition) == "definitionProvider"@,
        goto_capability(Goto::Type) == "typeDefinitionProvider"@,
        goto_capability(Goto::Implementation) == "implementationProvider"@,
        badness(Some(1)) == Severity::Error,
        badness(Some(2)) == Severity::Warning,
        badness(Some(3)) == Severity::Info,
        badness(Some(4)) == Severity::Hint,
{
}

/// What is asked about laying a file out says how wide a tab is and whether
/// spaces are wanted.
pub proof fn law_laying_out_says_how(path: Seq<char>, tab_width: usize, spaces: bool)
    ensures
        ({
            let v = format_value(path, tab_width, spaces);
            let options = field(v, "options"@);
            &&& text_in(field_in(field(v, "textDocument"@), "uri"@)) == Some(uri(path))
            &&& nat_in(field_in(options, "tabSize"@)) == Some(tab_width as u64)
            &&& crate::json::bool_in(field_in(options, "insertSpaces"@)) == Some(spaces)
        }),
{
    lemma_names();
    let v = format_value(path, tab_width, spaces);
    lemma_field_at(v->Object_0, "textDocument"@, 0, 0);
    lemma_field_at(v->Object_0, "options"@, 0, 1);
    let options = v->Object_0[1].1;
    lemma_field_at(options->Object_0, "tabSize"@, 0, 0);
    lemma_field_at(options->Object_0, "insertSpaces"@, 0, 1);
    lemma_field_at(seq![("uri"@, Value::Text(uri(path)))], "uri"@, 0, 0);
}

/// What suggestions are asked for with says which character brought them on, or
/// that somebody asked.
pub proof fn law_suggestions_say_what_brought_them_on(triggered: Option<char>)
    ensures
        ({
            let c = field(completion_context(triggered), "context"@);
            match triggered {
                Some(c2) => nat_in(field_in(c, "triggerKind"@)) == Some(2u64) && text_in(
                    field_in(c, "triggerCharacter"@),
                ) == Some(seq![c2]),
                None => nat_in(field_in(c, "triggerKind"@)) == Some(1u64),
            }
        }),
        adds(completion_context(triggered)),
{
    lemma_names();
    let v = completion_context(triggered);
    lemma_field_at(v->Object_0, "context"@, 0, 0);
    let c = v->Object_0[0].1;
    lemma_field_at(c->Object_0, "triggerKind"@, 0, 0);
    if triggered is Some {
        lemma_field_at(c->Object_0, "triggerCharacter"@, 0, 1);
    }
    reveal_strlit("textDocument");
    reveal_strlit("context");
    assert("textDocument"@.len() == 12 && "context"@.len() == 7);
}

// ---------------------------------------------------------------------------
// Problems
// ---------------------------------------------------------------------------

/// A problem that is told to a server again reads back as it is: where it is, how
/// bad it is, and what it says.
#[verifier::rlimit(40)]
pub proof fn law_a_problem_reads_back(d: Diagnostic, t: Seq<char>, server: ServerId)
    requires
        d.range.lo() <= d.range.hi() <= t.len(),
        d.range.lo() <= end_of_line(t, line_at(t, d.range.lo())),
        d.range.hi() <= end_of_line(t, line_at(t, d.range.hi())),
        countable(t),
    ensures
        ({
            let r = trouble_in(trouble_value(d, t), t, server);
            &&& r is Some
            &&& r->0.from == d.range.lo()
            &&& r->0.to == d.range.hi()
            &&& r->0.severity == d.severity
            &&& r->0.message == d.message@
            &&& r->0.source == maybe_text(d.source)
            &&& d.code is Some ==> r->0.code == maybe_text(d.code)
            &&& d.data is Some ==> r->0.data == Some(d.data->0@)
            &&& d.data is None ==> r->0.data is None
        }),
{
    lemma_names();
    law_a_range_reads_back(t, d.range.lo(), d.range.hi());
    let v = trouble_value(d, t);
    let fs = v->Object_0;
    lemma_field_at(fs, "range"@, 0, 0);
    lemma_field_at(fs, "severity"@, 0, 1);
    lemma_field_at(fs, "message"@, 0, 2);
    lemma_field_at(fs, "source"@, 0, 3);
    lemma_field_at(fs, "code"@, 0, 4);
    if d.data is Some {
        lemma_field_at(fs, "data"@, 0, 5);
    } else {
        lemma_place_of(fs, "data"@, 0);
    }
}

// ---------------------------------------------------------------------------
// What a server is told
// ---------------------------------------------------------------------------

/// A server that is told of a file has its name, its language, its version and
/// all of its text.
pub proof fn law_an_opened_file_is_told_whole(doc: Document, path: Seq<char>, lsp_id: Seq<char>)
    ensures
        ({
            let v = field(opened_value(doc, path, lsp_id), "textDocument"@);
            &&& text_in(field_in(v, "uri"@)) == Some(uri(path))
            &&& text_in(field_in(v, "languageId"@)) == Some(lsp_id)
            &&& int_in(field_in(v, "version"@)) == Some(doc.version as i64)
            &&& text_in(field_in(v, "text"@)) == Some(doc.content())
        }),
{
    lemma_names();
    let v = opened_value(doc, path, lsp_id);
    lemma_field_at(v->Object_0, "textDocument"@, 0, 0);
    let fs = v->Object_0[0].1->Object_0;
    lemma_field_at(fs, "uri"@, 0, 0);
    lemma_field_at(fs, "languageId"@, 0, 1);
    lemma_field_at(fs, "version"@, 0, 2);
    lemma_field_at(fs, "text"@, 0, 3);
}

/// What a server has that takes one change as it is written: a range and what is
/// put there, or all of the text.
pub open spec fn taken(had: Seq<char>, change: Value) -> Seq<char> {
    let text = match text_in(field(change, "text"@)) {
        Some(text) => text,
        None => Seq::empty(),
    };
    match (
        field_in(field(change, "range"@), "start"@),
        field_in(field(change, "range"@), "end"@),
    ) {
        (Some(start), Some(end)) => edited(
            had,
            Patch {
                from: written_place(had, start),
                to: written_place(had, end),
                text,
            },
        ),
        _ => text,
    }
}

/// The position that a place is of as it is written.
pub open spec fn written_place(t: Seq<char>, v: Value) -> int {
    match point_in(v) {
        Some(p) => crate::telling::place_named(t, (p.0 as usize, p.1 as usize)),
        None => 0,
    }
}

/// What a server has that takes the first `n` changes of a message.
pub open spec fn all_taken(t: Seq<char>, changes: Seq<Value>, n: int) -> Seq<char>
    decreases n,
{
    if n <= 0 { t } else { taken(all_taken(t, changes, n - 1), changes[n - 1]) }
}

proof fn lemma_spot(p: (usize, usize))
    ensures
        point_in(spot(p)) == Some((p.0 as u64, p.1 as u64)),
        (p.0 as u64) as usize == p.0 && (p.1 as u64) as usize == p.1,
{
    lemma_names();
    let fs = spot(p)->Object_0;
    lemma_field_at(fs, "line"@, 0, 0);
    lemma_field_at(fs, "character"@, 0, 1);
}

proof fn lemma_taken_as_told(t: Seq<char>, edits: Seq<AppliedEdit>, n: int)
    requires
        0 <= n <= edits.len(),
    ensures
        all_taken(t, ranged(edits), n) == followed(t, edits, n),
    decreases n,
{
    if n > 0 {
        lemma_taken_as_told(t, edits, n - 1);
        lemma_names();
        let e = edits[n - 1];
        let v = edit_value(e);
        assert(ranged(edits)[n - 1] == v);
        let fs = v->Object_0;
        lemma_field_at(fs, "range"@, 0, 0);
        lemma_field_at(fs, "text"@, 0, 1);
        let rs = fs[0].1->Object_0;
        lemma_field_at(rs, "start"@, 0, 0);
        lemma_field_at(rs, "end"@, 0, 1);
        lemma_spot(e.lsp_start);
        lemma_spot(e.lsp_old_end);
    }
}

/// Whether a server has been told one thing more.
pub open spec fn heard(s: Serving, now: Serving, method: Seq<char>, params: Value) -> bool {
    now.peer.sending == s.peer.sending.push(Sent::Notify(method, params))
}

/// A server that has a file and takes what it is told of a change, in whichever of
/// the two forms it asked for, has the text that the document has then. It is told
/// the version too. One that wants to hear nothing is told nothing.
#[verifier::rlimit(40)]
pub proof fn law_a_server_that_takes_what_it_is_told_has_the_text(
    s: Serving,
    was: Seq<char>,
    doc: Document,
    path: Seq<char>,
    cs: Seq<Patch>,
    edits: Seq<AppliedEdit>,
)
    requires
        among(s.open, path),
        recounts(edits, was, cs),
        doc.content() == crate::change::changed(was, cs),
        cs.len() > 0,
        forall|k: int|
            0 <= k < edits.len() ==> 0 <= (#[trigger] edits[k]).from <= edits[k].to
                && crate::telling::is_whole(
                crate::change::made(was, cs, k as nat),
                edits[k].from as int,
            ) && crate::telling::is_whole(
                crate::change::made(was, cs, k as nat),
                edits[k].to as int,
            ),
    ensures
        ({
            let now = with_change(s, path, doc.version, ranged(edits), doc.content());
            if sync_in(s.capabilities) == Sync::Off {
                now == s
            } else {
                exists|params: Value|
                    {
                        let about = field(params, "textDocument"@);
                        let changes = list_in(field(params, "contentChanges"@));
                        &&& #[trigger] heard(s, now, "textDocument/didChange"@, params)
                        &&& text_in(field_in(about, "uri"@)) == Some(uri(path))
                        &&& int_in(field_in(about, "version"@)) == Some(doc.version as i64)
                        &&& changes is Some
                        &&& all_taken(was, changes->0, changes->0.len() as int) == doc.content()
                    }
            }
        }),
{
    lemma_names();
    let whole = doc.content();
    let told_of = match sync_in(s.capabilities) {
        Sync::Full => seq![only("text"@, Value::Text(whole))],
        _ => ranged(edits),
    };
    let params = change_value(path, doc.version, told_of);
    let fs = params->Object_0;
    lemma_field_at(fs, "textDocument"@, 0, 0);
    lemma_field_at(fs, "contentChanges"@, 0, 1);
    lemma_field_at(fs[0].1->Object_0, "uri"@, 0, 0);
    lemma_field_at(fs[0].1->Object_0, "version"@, 0, 1);
    if sync_in(s.capabilities) == Sync::Full {
        let one = only("text"@, Value::Text(whole));
        lemma_field_at(one->Object_0, "text"@, 0, 0);
        lemma_place_of(one->Object_0, "range"@, 0);
        assert(all_taken(was, told_of, 0) == was);
        assert(all_taken(was, told_of, 1) == whole);
    } else if sync_in(s.capabilities) == Sync::Incremental {
        lemma_taken_as_told(was, edits, edits.len() as int);
        law_a_server_that_follows_has_the_text(was, cs, edits, edits.len() as int);
    }
    let now = with_change(s, path, doc.version, ranged(edits), whole);
    if sync_in(s.capabilities) != Sync::Off {
        assert(heard(s, now, "textDocument/didChange"@, params));
    }
}

/// What a server is told of a save holds the text that was saved, under the name
/// of the file.
pub proof fn law_a_save_is_told_whole(path: Seq<char>, text: Seq<char>)
    ensures
        text_in(field(saved_value(path, text), "text"@)) == Some(text),
        text_in(field_in(field(saved_value(path, text), "textDocument"@), "uri"@)) == Some(
            uri(path),
        ),
{
    lemma_names();
    let fs = saved_value(path, text)->Object_0;
    lemma_field_at(fs, "textDocument"@, 0, 0);
    lemma_field_at(fs, "text"@, 0, 1);
    lemma_field_at(seq![("uri"@, Value::Text(uri(path)))], "uri"@, 0, 0);
}

// ---------------------------------------------------------------------------
// What can be done
// ---------------------------------------------------------------------------

/// A question about what can be done names the file and the range that it is
/// about, and hands back the problems there.
pub proof fn law_what_can_be_done_is_asked_of_its_range(
    path: Seq<char>,
    range: Value,
    problems: Seq<Value>,
    kind: Option<Seq<char>>,
)
    ensures
        ({
            let v = actions_value(path, range, problems, kind);
            let context = field(v, "context"@);
            &&& text_in(field_in(field(v, "textDocument"@), "uri"@)) == Some(uri(path))
            &&& field(v, "range"@) == Some(range)
            &&& list_in(field_in(context, "diagnostics"@)) == Some(problems)
            &&& match kind {
                Some(kind) => list_in(field_in(context, "only"@)) == Some(seq![Value::Text(kind)]),
                None => field_in(context, "only"@) is None,
            }
        }),
{
    lemma_names();
    let v = actions_value(path, range, problems, kind);
    let fs = v->Object_0;
    lemma_field_at(fs, "textDocument"@, 0, 0);
    lemma_field_at(fs, "range"@, 0, 1);
    lemma_field_at(fs, "context"@, 0, 2);
    lemma_field_at(seq![("uri"@, Value::Text(uri(path)))], "uri"@, 0, 0);
    let cs = fs[2].1->Object_0;
    lemma_field_at(cs, "diagnostics"@, 0, 0);
    if kind is Some {
        lemma_field_at(cs, "only"@, 0, 1);
    } else {
        lemma_place_of(cs, "only"@, 0);
    }
}

// ---------------------------------------------------------------------------
// What a plugin is told
// ---------------------------------------------------------------------------

/// What a plugin has that takes the first `n` changes of a message, each by the
/// characters of the text as it was.
pub open spec fn taken_by_plugin(t: Seq<char>, changes: Seq<Value>, n: int) -> Seq<char>
    decreases n,
{
    if n <= 0 {
        t
    } else {
        let had = taken_by_plugin(t, changes, n - 1);
        let c = changes[n - 1];
        match (nat_in(field(c, "from"@)), nat_in(field(c, "to"@)), text_in(field(c, "text"@))) {
            (Some(from), Some(to), Some(text)) => had.subrange(0, from as int) + text + had.subrange(
                to as int,
                had.len() as int,
            ),
            _ => had,
        }
    }
}

/// A plugin that takes what it is told of a change has the text that the document has
/// then, under the name of the file, and knows its version.
pub proof fn law_a_plugin_that_takes_what_it_is_told_has_the_text(
    was: Seq<char>,
    cs: Seq<Patch>,
    edits: Seq<AppliedEdit>,
    path: Seq<char>,
    version: i32,
)
    requires
        recounts(edits, was, cs),
    ensures
        ({
            let v = crate::host::changed_value(path, version, edits);
            let changes = list_in(field(v, "changes"@));
            &&& text_in(field(v, "path"@)) == Some(path)
            &&& int_in(field(v, "version"@)) == Some(version as i64)
            &&& changes is Some
            &&& taken_by_plugin(was, changes->0, changes->0.len() as int) == crate::change::changed(
                was,
                cs,
            )
        }),
{
    reveal_strlit("path");
    reveal_strlit("version");
    reveal_strlit("changes");
    assert("path"@.len() == 4 && "version"@.len() == 7 && "changes"@.len() == 7);
    assert("version"@[0] == 'v' && "changes"@[0] == 'c');
    let fs = crate::host::changed_value(path, version, edits)->Object_0;
    lemma_field_at(fs, "path"@, 0, 0);
    lemma_field_at(fs, "version"@, 0, 1);
    lemma_field_at(fs, "changes"@, 0, 2);
    lemma_taken_by_plugin(was, cs, edits, edits.len() as int);
}

proof fn lemma_taken_by_plugin(was: Seq<char>, cs: Seq<Patch>, edits: Seq<AppliedEdit>, n: int)
    requires
        recounts(edits, was, cs),
        0 <= n <= edits.len(),
    ensures
        taken_by_plugin(was, crate::host::edit_values(edits), n) == crate::change::made(
            was,
            cs,
            n as nat,
        ),
    decreases n,
{
    if n > 0 {
        lemma_taken_by_plugin(was, cs, edits, n - 1);
        reveal_strlit("from");
        reveal_strlit("to");
        reveal_strlit("text");
        assert("from"@.len() == 4 && "to"@.len() == 2 && "text"@.len() == 4);
        assert("from"@[0] == 'f' && "text"@[0] == 't');
        let e = edits[n - 1];
        let fs = crate::host::edit_value(e)->Object_0;
        lemma_field_at(fs, "from"@, 0, 0);
        lemma_field_at(fs, "to"@, 0, 1);
        lemma_field_at(fs, "text"@, 0, 2);
        assert(crate::host::edit_values(edits)[n - 1] == crate::host::edit_value(e));
        assert(crate::doc::describes(
            e,
            crate::change::made(was, cs, (n - 1) as nat),
            cs[cs.len() - 1 - (n - 1)],
        ));
    }
}

} // verus!
