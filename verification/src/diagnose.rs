//! Problems, as language servers write them.
use vstd::prelude::*;

use crate::doc::{
    is_point, lsp_point, units_reach, Diagnostic, Document, Severity, Told,
};
use crate::json::{
    add_field, as_str, as_u64, field, field_in, lemma_said, maybe, nat_in, object, show, string,
    text_in, written, Json, Value,
};
use crate::lsp::{get_in, maybe_json, ServerId};
use crate::rope::{line_count, start_of_line};
use crate::strings::maybe_text;
use crate::text::{end_of_line, least, Range};

verus! {

/// A line and a column, as a server writes them.
pub open spec fn point_value(p: (int, int)) -> Value {
    Value::Object(
        seq![
            ("line"@, Value::Natural(p.0 as u64)),
            ("character"@, Value::Natural(p.1 as u64)),
        ],
    )
}

/// Two places, as a server writes a range.
pub open spec fn range_value(start: (int, int), end: (int, int)) -> Value {
    Value::Object(seq![("start"@, point_value(start)), ("end"@, point_value(end))])
}

/// Where a position is, for a server.
pub open spec fn place(t: Seq<char>, at: int) -> (int, int) {
    lsp_point(t, least(at, t.len() as int))
}

/// A line and a column, as a server writes them.
pub(crate) fn say_point(p: (usize, usize), Ghost(q): Ghost<(int, int)>) -> (j: Json)
    requires
        is_point(p, q),
    ensures
        j@ == point_value(q),
{
    let mut fs: Vec<(String, Json)> = Vec::new();
    add_field(&mut fs, "line", Json::Natural(p.0 as u64));
    add_field(&mut fs, "character", Json::Natural(p.1 as u64));
    let j = object(fs);
    assert(j@->Object_0 =~= point_value(q)->Object_0);
    j
}

/// Two positions of a document, as a server writes a range.
pub fn say_range(doc: &Document, from: usize, to: usize) -> (j: Json)
    ensures
        j@ == range_value(
            place(doc.content(), from as int),
            place(doc.content(), to as int),
        ),
{
    let ghost t = doc.content();
    let start = doc.lsp_point_at(from);
    let end = doc.lsp_point_at(to);
    let mut fs: Vec<(String, Json)> = Vec::new();
    add_field(&mut fs, "start", say_point(start, Ghost(place(t, from as int))));
    add_field(&mut fs, "end", say_point(end, Ghost(place(t, to as int))));
    let j = object(fs);
    assert(j@->Object_0 =~= range_value(place(t, from as int), place(t, to as int))->Object_0);
    j
}

/// The line and the column that a server wrote.
pub open spec fn point_in(v: Value) -> Option<(u64, u64)> {
    match (nat_in(field(v, "line"@)), nat_in(field(v, "character"@))) {
        (Some(line), Some(character)) => Some((line, character)),
        _ => None,
    }
}

/// The line and the column that a server wrote.
pub fn point_of(value: &Json) -> (r: Option<(usize, usize)>)
    ensures
        match point_in(value@) {
            Some(p) => r == Some((p.0 as usize, p.1 as usize)),
            None => r is None,
        },
{
    match (as_u64(value.get("line")), as_u64(value.get("character"))) {
        (Some(line), Some(character)) => Some((line as usize, character as usize)),
        _ => None,
    }
}

/// The position of a line and a column that a server wrote.
pub open spec fn position(t: Seq<char>, p: (u64, u64)) -> int {
    let l = least(p.0 as usize as int, line_count(t) - 1) as nat;
    units_reach(t, start_of_line(t, l), end_of_line(t, l), 0, p.1 as usize as int)
}

/// What is kept of a problem.
pub ghost struct Trouble {
    pub from: int,
    pub to: int,
    pub severity: Severity,
    pub message: Seq<char>,
    pub source: Option<Seq<char>>,
    pub code: Option<Seq<char>>,
    pub data: Option<Value>,
    pub told: Told,
}

impl View for Diagnostic {
    type V = Trouble;

    open spec fn view(&self) -> Trouble {
        Trouble {
            from: self.range.anchor as int,
            to: self.range.head as int,
            severity: self.severity,
            message: self.message@,
            source: maybe_text(self.source),
            code: maybe_text(self.code),
            data: maybe_json(self.data),
            told: self.told,
        }
    }
}

/// How bad a problem is, by its number.
pub open spec fn badness(n: Option<u64>) -> Severity {
    match n {
        Some(n) => if n == 1 {
            Severity::Error
        } else if n == 3 {
            Severity::Info
        } else if n == 4 {
            Severity::Hint
        } else {
            Severity::Warning
        },
        None => Severity::Warning,
    }
}

/// A code in words: a text as it is, and anything else as it is written.
pub open spec fn code_words(v: Value) -> Seq<char> {
    match v {
        Value::Text(s) => s,
        other => written(other),
    }
}

/// The problem that a server wrote about a text. One without a range or a
/// message is none.
pub open spec fn trouble_in(v: Value, t: Seq<char>, server: ServerId) -> Option<Trouble> {
    let range = field(v, "range"@);
    let start = match field_in(range, "start"@) {
        Some(p) => point_in(p),
        None => None,
    };
    let end = match field_in(range, "end"@) {
        Some(p) => point_in(p),
        None => None,
    };
    match (start, end, text_in(field(v, "message"@))) {
        (Some(start), Some(end), Some(message)) => Some(
            Trouble {
                from: position(t, start),
                to: position(t, end),
                severity: badness(nat_in(field(v, "severity"@))),
                message,
                source: text_in(field(v, "source"@)),
                code: match field(v, "code"@) {
                    Some(c) => Some(code_words(c)),
                    None => None,
                },
                data: field(v, "data"@),
                told: Told::Server(server.0),
            },
        ),
        _ => None,
    }
}

fn point_at(value: Option<&Json>) -> (r: Option<(usize, usize)>)
    ensures
        match maybe(value) {
            Some(v) => match point_in(v) {
                Some(p) => r == Some((p.0 as usize, p.1 as usize)),
                None => r is None,
            },
            None => r is None,
        },
{
    match value {
        Some(j) => point_of(j),
        None => None,
    }
}

fn code_of(j: &Json) -> (s: String)
    ensures
        s@ == code_words(j@),
{
    proof {
        lemma_said(*j);
    }
    match j {
        Json::Text(s) => s.clone(),
        _ => show(j),
    }
}

/// The problem that a server wrote about a document.
pub fn diagnostic_from_lsp(value: &Json, doc: &Document, server: ServerId) -> (r: Option<Diagnostic>)
    ensures
        match trouble_in(value@, doc.content(), server) {
            Some(d) => r is Some && r->0@ == d,
            None => r is None,
        },
{
    let range = value.get("range");
    let start = point_at(get_in(range, "start"));
    let end = point_at(get_in(range, "end"));
    let message = as_str(value.get("message"));
    match (start, end, message) {
        (Some(start), Some(end), Some(message)) => {
            let from = doc.char_at_lsp_point(start.0, start.1);
            let to = doc.char_at_lsp_point(end.0, end.1);
            let severity = match as_u64(value.get("severity")) {
                Some(n) => Severity::from_lsp(n),
                None => Severity::Warning,
            };
            let source: Option<String> = match as_str(value.get("source")) {
                Some(s) => Some(s.to_owned()),
                None => None,
            };
            let code: Option<String> = match value.get("code") {
                Some(c) => Some(code_of(c)),
                None => None,
            };
            let data: Option<Json> = match value.get("data") {
                Some(d) => Some(d.clone()),
                None => None,
            };
            Some(
                Diagnostic {
                    range: Range::new(from, to),
                    severity,
                    message: message.to_owned(),
                    source,
                    code,
                    data,
                    told: Told::Server(server.0),
                },
            )
        },
        _ => None,
    }
}

/// A text that may not be there, as a value.
pub open spec fn text_or_null(s: Option<Seq<char>>) -> Value {
    match s {
        Some(s) => Value::Text(s),
        None => Value::Null,
    }
}

/// How bad a problem is, as a number.
pub open spec fn badness_number(s: Severity) -> u64 {
    match s {
        Severity::Error => 1,
        Severity::Warning => 2,
        Severity::Info => 3,
        Severity::Hint => 4,
    }
}

/// A problem on its way back out, as a server wrote it.
pub open spec fn trouble_value(d: Diagnostic, t: Seq<char>) -> Value {
    let fs = seq![
        ("range"@, range_value(place(t, d.range.lo()), place(t, d.range.hi()))),
        ("severity"@, Value::Natural(badness_number(d.severity))),
        ("message"@, Value::Text(d.message@)),
        ("source"@, text_or_null(maybe_text(d.source))),
        ("code"@, text_or_null(maybe_text(d.code))),
    ];
    match d.data {
        Some(data) => Value::Object(fs.push(("data"@, data@))),
        None => Value::Object(fs),
    }
}

fn say_text(s: &Option<String>) -> (j: Json)
    ensures
        j@ == text_or_null(maybe_text(*s)),
{
    match s {
        Some(s) => string(s.as_str()),
        None => Json::Null,
    }
}

/// A problem on its way back out, for a question that has to say which
/// problem it is about.
pub fn diagnostic_to_lsp(d: &Diagnostic, doc: &Document) -> (j: Json)
    ensures
        j@ == trouble_value(*d, doc.content()),
{
    let ghost want = trouble_value(*d, doc.content());
    let mut fs: Vec<(String, Json)> = Vec::new();
    add_field(&mut fs, "range", say_range(doc, d.range.start(), d.range.end()));
    add_field(&mut fs, "severity", Json::Natural(d.severity.to_lsp()));
    add_field(&mut fs, "message", string(d.message.as_str()));
    add_field(&mut fs, "source", say_text(&d.source));
    add_field(&mut fs, "code", say_text(&d.code));
    if let Some(data) = &d.data {
        add_field(&mut fs, "data", data.clone());
    }
    let j = object(fs);
    assert(j@->Object_0 =~= want->Object_0);
    j
}

} // verus!
