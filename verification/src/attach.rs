//! Attaching to a program that is already running: the address or the process
//! that a manifest asks for, put where it asks for it.
use vstd::prelude::*;

use crate::chars::chars_of;
use crate::json::{
    add_field, add_item, each, field, fields, lemma_said, list, object, set_field, show, with_field,
    written, Json, Value,
};
use crate::launch::Resolve;
use crate::numbers::{decimal, parse_number, read_number, show_number};
use crate::strings::{
    begins, contains, extend, find_first, find_next, first_place, halves, holds, lemma_next_match,
    next_match, piece, reads, replace, replaced, split_once, text_of, trim, trimmed,
};
use crate::vars::{lemma_first_place, pairs};

verus! {

/// Whether an attach request wants an address filled in.
pub fn needs_an_address(attach: &Json) -> (yes: bool)
    ensures
        yes == (holds(written(attach@), "${host"@) || holds(written(attach@), "${port"@)),
{
    let text = show(attach);
    contains(text.as_str(), "${host") || contains(text.as_str(), "${port")
}

/// Whether an attach request needs a process picked for it.
pub fn needs_a_process(attach: &Json) -> (yes: bool)
    ensures
        yes == (holds(written(attach@), "${pid}"@) || holds(written(attach@), "${program}"@)),
{
    let text = show(attach);
    contains(text.as_str(), "${pid}") || contains(text.as_str(), "${program}")
}

// ---------------------------------------------------------------------------
// The address that is suggested
// ---------------------------------------------------------------------------

/// What a placeholder is written with after its colon, up to the next closing
/// brace: the first that stands in a text.
pub open spec fn default_in(text: Seq<char>, open: Seq<char>) -> Option<Seq<char>> {
    match next_match(text, open, 0) {
        Some(at) => {
            let from = at + open.len();
            let end = first_place(text, '}', from);
            if end < text.len() { Some(text.subrange(from, end)) } else { None }
        },
        None => None,
    }
}

/// The address that a manifest suggests.
pub open spec fn suggestion(text: Seq<char>) -> Option<(Seq<char>, nat)> {
    match default_in(text, "${port:"@) {
        Some(port) => match read_number(port, u16::MAX as nat) {
            Some(n) => Some(
                (
                    match default_in(text, "${host:"@) {
                        Some(host) => host,
                        None => "127.0.0.1"@,
                    },
                    n,
                ),
            ),
            None => None,
        },
        None => None,
    }
}

fn find_default(text: &Vec<char>, open: &str) -> (r: Option<Vec<char>>)
    ensures
        match default_in(text@, open@) {
            Some(s) => r is Some && r->0@ == s,
            None => r is None,
        },
{
    let needle = chars_of(open);
    let len = text.len();
    proof {
        lemma_next_match(text@, needle@, 0);
    }
    match find_next(text, &needle, 0) {
        Some(at) => {
            let from = at + needle.len();
            let end = find_first(text, '}', from);
            if end < len {
                Some(piece(text, from, end))
            } else {
                None
            }
        },
        None => None,
    }
}

/// The address a manifest suggests, for the box to open with: `${port:5678}`
/// is a placeholder with a suggestion after a colon.
pub fn suggested_address(attach: &Json) -> (r: Option<(String, u16)>)
    ensures
        match suggestion(written(attach@)) {
            Some(a) => r is Some && (r->0).0@ == a.0 && (r->0).1 == a.1,
            None => r is None,
        },
{
    let text = show(attach);
    let v = chars_of(text.as_str());
    match find_default(&v, "${port:") {
        Some(port) => match parse_number(&port, u16::MAX as u64) {
            Some(n) => {
                let host = match find_default(&v, "${host:") {
                    Some(host) => text_of(&host),
                    None => "127.0.0.1".to_owned(),
                };
                Some((host, n as u16))
            },
            None => None,
        },
        None => None,
    }
}

// ---------------------------------------------------------------------------
// An address, filled in
// ---------------------------------------------------------------------------

/// A text whose placeholders have lost their suggestions. One that is not
/// closed is none.
pub open spec fn undefaulted(s: Seq<char>) -> Seq<char>
    decreases s.len(),
    via undefaulted_ends
{
    match next_match(s, seq!['$', '{'], 0) {
        None => s,
        Some(at) => {
            let end = first_place(s, '}', at);
            if end >= s.len() {
                s
            } else {
                let inner = s.subrange(at + 2, end);
                let name = match halves(inner, ':') {
                    Some(p) => p.0,
                    None => inner,
                };
                s.take(at) + seq!['$', '{'] + name + seq!['}'] + undefaulted(s.skip(end + 1))
            }
        },
    }
}

#[via_fn]
proof fn undefaulted_ends(s: Seq<char>) {
    lemma_next_match(s, seq!['$', '{'], 0);
    match next_match(s, seq!['$', '{'], 0) {
        Some(at) => {
            lemma_first_place(s, '}', at);
        },
        None => {},
    }
}

fn without_defaults(v: &Vec<char>) -> (r: Vec<char>)
    ensures
        r@ == undefaulted(v@),
    decreases v@.len(),
{
    let open: Vec<char> = vec!['$', '{'];
    assert(open@ =~= seq!['$', '{']);
    let len = v.len();
    proof {
        lemma_next_match(v@, open@, 0);
    }
    match find_next(v, &open, 0) {
        None => crate::split::copy_line(v),
        Some(at) => {
            let mut out = piece(v, 0, at);
            assert(out@ =~= v@.take(at as int));
            let end = find_first(v, '}', at);
            if end >= len {
                return crate::split::copy_line(v);
            }
            assert(end >= at + 2) by {
                assert(v@.subrange(at as int, at + 2) == seq!['$', '{']);
                assert(v@[at as int] == v@.subrange(at as int, at + 2)[0]);
                assert(v@[at + 1] == v@.subrange(at as int, at + 2)[1]);
            }
            let inner = piece(v, at + 2, end);
            let name = match split_once(&inner, ':') {
                Some((name, _)) => name,
                None => inner,
            };
            extend(&mut out, &open);
            extend(&mut out, &name);
            out.push('}');
            let rest = piece(v, end + 1, len);
            assert(rest@ =~= v@.skip(end + 1));
            let more = without_defaults(&rest);
            extend(&mut out, &more);
            assert(out@ =~= undefaulted(v@));
            out
        },
    }
}

/// A text with a host and a port in it, or, where it was a port and nothing
/// else, the number.
pub open spec fn addressed_text(s: Seq<char>, host: Seq<char>, port: u16) -> Value {
    let digits = decimal(port as nat);
    let t = replaced(replaced(undefaulted(s), "${host}"@, host), "${port}"@, digits);
    if "${port"@.is_prefix_of(trimmed(s)) && trimmed(t) == digits {
        Value::Natural(port as u64)
    } else {
        Value::Text(t)
    }
}

/// A value with a host and a port in it.
pub open spec fn addressed(v: Value, host: Seq<char>, port: u16) -> Value
    decreases v,
{
    match v {
        Value::Text(s) => addressed_text(s, host, port),
        Value::List(l) => Value::List(
            Seq::new(
                l.len(),
                |i: int|
                    if 0 <= i < l.len() {
                        addressed(l[i], host, port)
                    } else {
                        Value::Null
                    },
            ),
        ),
        Value::Object(fs) => Value::Object(
            Seq::new(
                fs.len(),
                |i: int|
                    if 0 <= i < fs.len() {
                        (fs[i].0, addressed(fs[i].1, host, port))
                    } else {
                        (Seq::empty(), Value::Null)
                    },
            ),
        ),
        _ => v,
    }
}

/// The attach request with an address in it. A port becomes a number.
pub fn at_address(attach: &Json, host: &str, port: u16) -> (r: Json)
    ensures
        r@ == addressed(attach@, host@, port),
    decreases attach,
{
    proof {
        lemma_said(*attach);
    }
    match attach {
        Json::Text(s) => {
            proof {
                reveal_strlit("${host}");
                reveal_strlit("${port}");
            }
            let v = chars_of(s.as_str());
            let digits = show_number(port as u64);
            let bare = without_defaults(&v);
            let with_host = replace(&bare, "${host}", host);
            let filled = replace(&with_host, "${port}", digits.as_str());
            let trimmed_text = trim(&v);
            let trimmed_fill = trim(&filled);
            if begins(&trimmed_text, "${port") && reads(&trimmed_fill, digits.as_str()) {
                Json::Natural(port as u64)
            } else {
                Json::Text(text_of(&filled))
            }
        },
        Json::List(v) => {
            let ghost l = each(v@);
            let mut out: Vec<Json> = Vec::new();
            let mut i: usize = 0;
            while i < v.len()
                invariant
                    i <= v@.len(),
                    *attach == Json::List(*v),
                    l == each(v@),
                    each(out@).len() == i,
                    forall|k: int|
                        0 <= k < i ==> (#[trigger] each(out@)[k]) == addressed(l[k], host@, port),
                decreases v@.len() - i,
            {
                assert(decreases_to!(*attach => attach->List_0@[i as int]));
                assert(l[i as int] == v@[i as int]@);
                let ghost had = each(out@);
                add_item(&mut out, at_address(&v[i], host, port));
                i = i + 1;
                assert forall|k: int| 0 <= k < i implies (#[trigger] each(out@)[k]) == addressed(
                    l[k],
                    host@,
                    port,
                ) by {
                    if k < i - 1 {
                        assert(each(out@)[k] == had[k]);
                    }
                }
            }
            let r = list(out);
            assert(r@->List_0 =~= addressed(attach@, host@, port)->List_0);
            r
        },
        Json::Object(v) => {
            let ghost fs = fields(v@);
            let mut out: Vec<(String, Json)> = Vec::new();
            let mut i: usize = 0;
            while i < v.len()
                invariant
                    i <= v@.len(),
                    *attach == Json::Object(*v),
                    fs == fields(v@),
                    fields(out@).len() == i,
                    forall|k: int|
                        0 <= k < i ==> (#[trigger] fields(out@)[k]) == (
                            fs[k].0,
                            addressed(fs[k].1, host@, port),
                        ),
                decreases v@.len() - i,
            {
                assert(decreases_to!(*attach => attach->Object_0@[i as int].1));
                assert(fs[i as int] == (v@[i as int].0@, v@[i as int].1@));
                let ghost had = fields(out@);
                add_field(&mut out, v[i].0.as_str(), at_address(&v[i].1, host, port));
                i = i + 1;
                assert forall|k: int| 0 <= k < i implies (#[trigger] fields(out@)[k]) == (
                    fs[k].0,
                    addressed(fs[k].1, host@, port),
                ) by {
                    if k < i - 1 {
                        assert(fields(out@)[k] == had[k]);
                    }
                }
            }
            let r = object(out);
            assert(r@->Object_0 =~= addressed(attach@, host@, port)->Object_0);
            r
        },
        _ => attach.clone(),
    }
}

// ---------------------------------------------------------------------------
// A process, filled in
// ---------------------------------------------------------------------------

/// Whether a field asks for a program that cannot be named.
pub open spec fn asks_in_vain(v: Value, program: Option<Seq<char>>) -> bool {
    program is None && match v {
        Value::Text(s) => trimmed(s) == "${program}"@,
        _ => false,
    }
}

/// A text with a process in it, or, where it was its number and nothing else,
/// the number.
pub open spec fn about_text(s: Seq<char>, pid: u32, program: Option<Seq<char>>) -> Value {
    if trimmed(s) == "${pid}"@ {
        Value::Natural(pid as u64)
    } else {
        Value::Text(
            replaced(
                replaced(s, "${pid}"@, decimal(pid as nat)),
                "${program}"@,
                match program {
                    Some(p) => p,
                    None => Seq::empty(),
                },
            ),
        )
    }
}

/// A value with a process in it. A field asking for a program that cannot be
/// named is left out.
pub open spec fn about(v: Value, pid: u32, program: Option<Seq<char>>) -> Value
    decreases v, 1int,
{
    match v {
        Value::Text(s) => about_text(s, pid, program),
        Value::List(l) => Value::List(about_items(l, pid, program, l.len() as int)),
        Value::Object(fs) => Value::Object(about_fields(fs, pid, program, fs.len() as int)),
        _ => v,
    }
}

/// The first `n` items of a list with a process in them.
pub open spec fn about_items(
    l: Seq<Value>,
    pid: u32,
    program: Option<Seq<char>>,
    n: int,
) -> Seq<Value>
    decreases l, 0int, n,
{
    if n <= 0 || n > l.len() {
        Seq::empty()
    } else {
        about_items(l, pid, program, n - 1).push(about(l[n - 1], pid, program))
    }
}

/// The first `n` fields of an object with a process in them.
pub open spec fn about_fields(
    fs: Seq<(Seq<char>, Value)>,
    pid: u32,
    program: Option<Seq<char>>,
    n: int,
) -> Seq<(Seq<char>, Value)>
    decreases fs, 0int, n,
{
    if n <= 0 || n > fs.len() {
        Seq::empty()
    } else {
        let less = about_fields(fs, pid, program, n - 1);
        if asks_in_vain(fs[n - 1].1, program) {
            less
        } else {
            less.push((fs[n - 1].0, about(fs[n - 1].1, pid, program)))
        }
    }
}

/// What a name says that may not be there.
pub open spec fn maybe_str(s: Option<&str>) -> Option<Seq<char>> {
    match s {
        Some(s) => Some(s@),
        None => None,
    }
}

/// The attach request for one running process. Its number becomes a number
/// where it stands alone, and digits where it does not.
pub fn about_process(attach: &Json, pid: u32, program: Option<&str>) -> (r: Json)
    ensures
        r@ == about(attach@, pid, maybe_str(program)),
    decreases attach,
{
    let ghost name = maybe_str(program);
    proof {
        lemma_said(*attach);
    }
    match attach {
        Json::Text(s) => {
            proof {
                reveal_strlit("${pid}");
                reveal_strlit("${program}");
            }
            let v = chars_of(s.as_str());
            let t = trim(&v);
            if reads(&t, "${pid}") {
                return Json::Natural(pid as u64);
            }
            let digits = show_number(pid as u64);
            let with_pid = replace(&v, "${pid}", digits.as_str());
            let filled = match program {
                Some(p) => replace(&with_pid, "${program}", p),
                None => {
                    let nothing: String = String::new();
                    assert(nothing@ =~= Seq::<char>::empty());
                    replace(&with_pid, "${program}", nothing.as_str())
                },
            };
            Json::Text(text_of(&filled))
        },
        Json::List(v) => {
            let ghost l = each(v@);
            let mut out: Vec<Json> = Vec::new();
            let mut i: usize = 0;
            assert(each(out@) =~= about_items(l, pid, name, 0));
            while i < v.len()
                invariant
                    i <= v@.len(),
                    *attach == Json::List(*v),
                    l == each(v@),
                    name == maybe_str(program),
                    each(out@) == about_items(l, pid, name, i as int),
                decreases v@.len() - i,
            {
                assert(decreases_to!(*attach => attach->List_0@[i as int]));
                assert(l[i as int] == v@[i as int]@);
                add_item(&mut out, about_process(&v[i], pid, program));
                i = i + 1;
            }
            list(out)
        },
        Json::Object(v) => {
            let ghost fs = fields(v@);
            let mut out: Vec<(String, Json)> = Vec::new();
            let mut i: usize = 0;
            assert(fields(out@) =~= about_fields(fs, pid, name, 0));
            while i < v.len()
                invariant
                    i <= v@.len(),
                    *attach == Json::Object(*v),
                    fs == fields(v@),
                    name == maybe_str(program),
                    fields(out@) == about_fields(fs, pid, name, i as int),
                decreases v@.len() - i,
            {
                assert(decreases_to!(*attach => attach->Object_0@[i as int].1));
                assert(fs[i as int] == (v@[i as int].0@, v@[i as int].1@));
                let vain = match (&v[i].1, program) {
                    (Json::Text(s), None) => {
                        let t = trim(&chars_of(s.as_str()));
                        reads(&t, "${program}")
                    },
                    _ => false,
                };
                if !vain {
                    add_field(&mut out, v[i].0.as_str(), about_process(&v[i].1, pid, program));
                }
                i = i + 1;
            }
            object(out)
        },
        _ => attach.clone(),
    }
}

// ---------------------------------------------------------------------------
// Answers
// ---------------------------------------------------------------------------

/// Fields with those of an answer put in that the first `n` names say, where
/// the answer has them.
pub open spec fn folded(
    fs: Seq<(Seq<char>, Value)>,
    into: Seq<(Seq<char>, Seq<char>)>,
    answer: Value,
    n: int,
) -> Seq<(Seq<char>, Value)>
    decreases n,
{
    if n <= 0 {
        fs
    } else {
        let less = folded(fs, into, answer, n - 1);
        match field(answer, into[n - 1].1) {
            Some(v) => with_field(less, into[n - 1].0, v),
            None => less,
        }
    }
}

/// Put a language server's answer into the launch arguments, by the names
/// the manifest gave. A field that the server did not answer with is left
/// alone.
pub fn fold_into_launch(launch: &mut Json, resolve: &Resolve, answer: &Json)
    ensures
        final(launch)@ == (match old(launch)@ {
            Value::Object(fs) => Value::Object(
                folded(fs, pairs(resolve.into@), answer@, resolve.into@.len() as int),
            ),
            other => other,
        }),
{
    proof {
        lemma_said(*launch);
    }
    let ghost was = launch@;
    let mut fs: Vec<(String, Json)> = match launch {
        Json::Object(v) => take_fields(v),
        _ => {
            return;
        },
    };
    let ghost start = fields(fs@);
    let ghost into = pairs(resolve.into@);
    let mut n: usize = 0;
    while n < resolve.into.len()
        invariant
            n <= resolve.into@.len(),
            into == pairs(resolve.into@),
            fields(fs@) == folded(start, into, answer@, n as int),
        decreases resolve.into@.len() - n,
    {
        assert(into[n as int] == (resolve.into@[n as int].0@, resolve.into@[n as int].1@));
        if let Some(value) = answer.get(resolve.into[n].1.as_str()) {
            set_field(&mut fs, resolve.into[n].0.as_str(), value.clone());
        }
        n = n + 1;
    }
    *launch = object(fs);
}

fn take_fields(v: &mut Vec<(String, Json)>) -> (fs: Vec<(String, Json)>)
    ensures
        fs@ == old(v)@,
{
    let mut fs: Vec<(String, Json)> = Vec::new();
    std::mem::swap(&mut fs, v);
    fs
}

/// The first `n` fields of one object put into another.
pub open spec fn merged(
    fs: Seq<(Seq<char>, Value)>,
    over: Seq<(Seq<char>, Value)>,
    n: int,
) -> Seq<(Seq<char>, Value)>
    decreases n,
{
    if n <= 0 {
        fs
    } else {
        with_field(merged(fs, over, n - 1), over[n - 1].0, over[n - 1].1)
    }
}

/// One value folded into another: field by field where both are objects, and
/// else in its place.
pub open spec fn merged_value(base: Value, over: Value) -> Value {
    match (base, over) {
        (Value::Object(b), Value::Object(o)) => Value::Object(merged(b, o, o.len() as int)),
        _ => over,
    }
}

/// Fold one object into another, field by field.
pub fn merge(base: &mut Json, over: &Json)
    ensures
        final(base)@ == merged_value(old(base)@, over@),
{
    proof {
        lemma_said(*base);
        lemma_said(*over);
    }
    if let (Json::Object(b), Json::Object(o)) = (&mut *base, over) {
        let mut fs = take_fields(b);
        let ghost start = fields(fs@);
        let ghost more = fields(o@);
        let mut n: usize = 0;
        while n < o.len()
            invariant
                n <= o@.len(),
                more == fields(o@),
                fields(fs@) == merged(start, more, n as int),
            decreases o@.len() - n,
        {
            assert(more[n as int] == (o@[n as int].0@, o@[n as int].1@));
            set_field(&mut fs, o[n].0.as_str(), o[n].1.clone());
            n = n + 1;
        }
        *base = object(fs);
    } else {
        *base = over.clone();
    }
}

} // verus!
