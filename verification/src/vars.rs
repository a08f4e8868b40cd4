//! The placeholders in a manifest, and what they stand for.
use vstd::prelude::*;

use crate::chars::{chars_of, same};
use crate::json::{add_field, add_item, each, fields, lemma_said, list, object, Json, Value};
use crate::path::{above, parent};
use crate::strings::{
    extend, find_first, find_next, first_place, lemma_next_match, next_match, piece, text_of, trim,
    trimmed,
};

verus! {

/// An environment that a project is run in.
#[derive(Debug)]
pub struct Environment {
    pub root: String,
    /// The interpreter in it.
    pub python: String,
    /// Where it came from, in words.
    pub about: String,
}

/// What placeholders stand for: a text each, or, for some that are a value of
/// their own, a value.
#[derive(Debug)]
pub struct Vars {
    pub known: Vec<(String, String)>,
    pub wholes: Vec<(String, Json)>,
}

/// What names stand for.
pub open spec fn pairs(v: Seq<(String, String)>) -> Seq<(Seq<char>, Seq<char>)> {
    v.map_values(|p: (String, String)| (p.0@, p.1@))
}

/// The place of a name, or the end.
pub open spec fn name_place(ps: Seq<(Seq<char>, Seq<char>)>, name: Seq<char>, i: int) -> int
    decreases ps.len() - i,
{
    if 0 <= i < ps.len() && ps[i].0 != name { name_place(ps, name, i + 1) } else { i }
}

/// What a name stands for, where it stands for something.
pub open spec fn stands_for(ps: Seq<(Seq<char>, Seq<char>)>, name: Seq<char>) -> Option<Seq<char>> {
    let at = name_place(ps, name, 0);
    if at < ps.len() { Some(ps[at].1) } else { None }
}

/// Names with what one stands for set.
pub open spec fn with_name(
    ps: Seq<(Seq<char>, Seq<char>)>,
    name: Seq<char>,
    text: Seq<char>,
) -> Seq<(Seq<char>, Seq<char>)> {
    let at = name_place(ps, name, 0);
    if at < ps.len() { ps.update(at, (ps[at].0, text)) } else { ps.push((name, text)) }
}

/// A text with its placeholders filled in. None where one of them is not
/// known.
pub open spec fn fills(ps: Seq<(Seq<char>, Seq<char>)>, s: Seq<char>) -> Option<Seq<char>>
    decreases s.len(),
    via fills_ends
{
    match next_match(s, seq!['$', '{'], 0) {
        None => Some(s),
        Some(at) => {
            let end = first_place(s, '}', at);
            if end >= s.len() {
                Some(s)
            } else {
                match (stands_for(ps, s.subrange(at + 2, end)), fills(ps, s.skip(end + 1))) {
                    (Some(v), Some(rest)) => Some(s.take(at) + v + rest),
                    _ => None,
                }
            }
        },
    }
}

#[via_fn]
proof fn fills_ends(ps: Seq<(Seq<char>, Seq<char>)>, s: Seq<char>) {
    lemma_next_match(s, seq!['$', '{'], 0);
    match next_match(s, seq!['$', '{'], 0) {
        Some(at) => {
            lemma_first_place(s, '}', at);
        },
        None => {},
    }
}

/// The first place of a character is in the text, or at its end.
pub proof fn lemma_first_place(s: Seq<char>, c: char, i: int)
    requires
        0 <= i <= s.len(),
    ensures
        i <= first_place(s, c, i) <= s.len(),
        first_place(s, c, i) < s.len() ==> s[first_place(s, c, i)] == c,
    decreases s.len() - i,
{
    if i < s.len() && s[i] != c {
        lemma_first_place(s, c, i + 1);
    }
}

/// The name that a text is the placeholder of, where it is nothing else.
pub open spec fn placeholder(s: Seq<char>) -> Option<Seq<char>> {
    let t = trimmed(s);
    if t.len() >= 3 && t[0] == '$' && t[1] == '{' && t.last() == '}' {
        Some(t.subrange(2, t.len() - 1))
    } else {
        None
    }
}

/// The value that a text is the placeholder of.
pub open spec fn whole_value(ws: Seq<(Seq<char>, Value)>, s: Seq<char>) -> Option<Value> {
    match placeholder(s) {
        Some(name) => crate::json::field(Value::Object(ws), name),
        None => None,
    }
}

/// A value with its placeholders filled in. A field or an item that cannot be
/// filled in is left out.
pub open spec fn fills_value(
    ps: Seq<(Seq<char>, Seq<char>)>,
    ws: Seq<(Seq<char>, Value)>,
    v: Value,
) -> Option<Value>
    decreases v, 1int,
{
    match v {
        Value::Text(s) => match whole_value(ws, s) {
            Some(w) => Some(w),
            None => match fills(ps, s) {
                Some(t) => Some(Value::Text(t)),
                None => None,
            },
        },
        Value::List(l) => Some(Value::List(fills_items(ps, ws, l, l.len() as int))),
        Value::Object(fs) => Some(Value::Object(fills_fields(ps, ws, fs, fs.len() as int))),
        _ => Some(v),
    }
}

/// The first `n` items of a list, filled in.
pub open spec fn fills_items(
    ps: Seq<(Seq<char>, Seq<char>)>,
    ws: Seq<(Seq<char>, Value)>,
    l: Seq<Value>,
    n: int,
) -> Seq<Value>
    decreases l, 0int, n,
{
    if n <= 0 || n > l.len() {
        Seq::empty()
    } else {
        let less = fills_items(ps, ws, l, n - 1);
        match fills_value(ps, ws, l[n - 1]) {
            Some(v) => less.push(v),
            None => less,
        }
    }
}

/// The first `n` fields of an object, filled in.
pub open spec fn fills_fields(
    ps: Seq<(Seq<char>, Seq<char>)>,
    ws: Seq<(Seq<char>, Value)>,
    fs: Seq<(Seq<char>, Value)>,
    n: int,
) -> Seq<(Seq<char>, Value)>
    decreases fs, 0int, n,
{
    if n <= 0 || n > fs.len() {
        Seq::empty()
    } else {
        let less = fills_fields(ps, ws, fs, n - 1);
        match fills_value(ps, ws, fs[n - 1].1) {
            Some(v) => less.push((fs[n - 1].0, v)),
            None => less,
        }
    }
}

/// What is known of a project and its environment.
pub open spec fn known_of(root: Seq<char>, env: Option<Environment>) -> Seq<(Seq<char>, Seq<char>)> {
    let base = seq![("root"@, root)];
    match env {
        Some(e) => {
            let more = with_name(with_name(base, "python"@, e.python@), "venv"@, e.root@);
            match above(e.python@) {
                Some(bin) => with_name(more, "venv_bin"@, bin),
                None => more,
            }
        },
        None => base,
    }
}

impl Vars {
    /// What names stand for.
    pub open spec fn names(self) -> Seq<(Seq<char>, Seq<char>)> {
        pairs(self.known@)
    }

    /// What names stand for that stand for a value.
    pub open spec fn values(self) -> Seq<(Seq<char>, Value)> {
        fields(self.wholes@)
    }

    /// What is known of a project and the environment it is run in.
    pub fn new(root: &str, env: &Option<Environment>) -> (v: Vars)
        ensures
            v.names() == known_of(root@, *env),
            v.values() == Seq::<(Seq<char>, Value)>::empty(),
    {
        let mut v = Vars { known: Vec::new(), wholes: Vec::new() };
        assert(v.names() =~= Seq::<(Seq<char>, Seq<char>)>::empty());
        v.set("root", root);
        assert(v.names() =~= seq![("root"@, root@)]);
        assert(v.values() =~= Seq::<(Seq<char>, Value)>::empty());
        if let Some(e) = env {
            v.set("python", e.python.as_str());
            v.set("venv", e.root.as_str());
            if let Some(bin) = parent(e.python.as_str()) {
                v.set("venv_bin", bin.as_str());
            }
        }
        v
    }

    fn find(&self, name: &str) -> (at: usize)
        ensures
            at == name_place(self.names(), name@, 0),
            at <= self.known@.len(),
    {
        let mut at: usize = 0;
        while at < self.known.len()
            invariant
                at <= self.known@.len(),
                name_place(self.names(), name@, 0) == name_place(self.names(), name@, at as int),
            decreases self.known@.len() - at,
        {
            assert(self.names()[at as int] == (
                self.known@[at as int].0@,
                self.known@[at as int].1@,
            ));
            if same(self.known[at].0.as_str(), name) {
                return at;
            }
            at = at + 1;
        }
        at
    }

    /// Say what a name stands for.
    pub fn set(&mut self, name: &str, text: &str)
        ensures
            final(self).names() == with_name(old(self).names(), name@, text@),
            final(self).values() == old(self).values(),
    {
        let at = self.find(name);
        let ghost had = self.names();
        assert(had.len() == self.known@.len());
        if at < self.known.len() {
            let key = self.known[at].0.clone();
            assert(had[at as int].0 == key@);
            self.known.set(at, (key, text.to_owned()));
            assert(self.names() =~= had.update(at as int, (key@, text@)));
        } else {
            self.known.push((name.to_owned(), text.to_owned()));
            assert(self.names() =~= had.push((name@, text@)));
        }
    }

    /// Say what value a name stands for.
    pub fn set_value(&mut self, name: &str, value: Json)
        ensures
            final(self).names() == old(self).names(),
            final(self).values() == crate::json::with_field(old(self).values(), name@, value@),
    {
        crate::json::set_field(&mut self.wholes, name, value);
    }

    /// What a name stands for.
    pub fn get(&self, name: &str) -> (r: Option<&str>)
        ensures
            match stands_for(self.names(), name@) {
                Some(s) => r is Some && r->0@ == s,
                None => r is None,
            },
    {
        let at = self.find(name);
        if at < self.known.len() {
            assert(self.names()[at as int].1 == self.known@[at as int].1@);
            Some(self.known[at].1.as_str())
        } else {
            None
        }
    }

    /// A text with its placeholders filled in. None where one of them is not
    /// known.
    pub fn fill(&self, text: &str) -> (r: Option<String>)
        ensures
            match fills(self.names(), text@) {
                Some(s) => r is Some && r->0@ == s,
                None => r is None,
            },
    {
        let v = chars_of(text);
        match self.fill_chars(&v) {
            Some(s) => Some(text_of(&s)),
            None => None,
        }
    }

    fn fill_chars(&self, v: &Vec<char>) -> (r: Option<Vec<char>>)
        ensures
            match fills(self.names(), v@) {
                Some(s) => r is Some && r->0@ == s,
                None => r is None,
            },
        decreases v@.len(),
    {
        let open: Vec<char> = vec!['$', '{'];
        assert(open@ =~= seq!['$', '{']);
        let len = v.len();
        proof {
            lemma_next_match(v@, open@, 0);
        }
        match find_next(v, &open, 0) {
            None => Some(crate::split::copy_line(v)),
            Some(at) => {
                let end = find_first(v, '}', at);
                if end >= len {
                    return Some(crate::split::copy_line(v));
                }
                assert(end >= at + 2) by {
                    assert(v@.subrange(at as int, at + 2) == seq!['$', '{']);
                    assert(v@[at as int] == v@.subrange(at as int, at + 2)[0]);
                    assert(v@[at + 1] == v@.subrange(at as int, at + 2)[1]);
                }
                let name = text_of(&piece(v, at + 2, end));
                let rest = piece(v, end + 1, len);
                assert(rest@ =~= v@.skip(end + 1));
                let filled = self.fill_chars(&rest);
                match (self.get(name.as_str()), filled) {
                    (Some(value), Some(more)) => {
                        let mut out = piece(v, 0, at);
                        assert(out@ =~= v@.take(at as int));
                        extend(&mut out, &chars_of(value));
                        extend(&mut out, &more);
                        Some(out)
                    },
                    _ => None,
                }
            },
        }
    }

    /// A value with its placeholders filled in. None for a text that has one
    /// that is not known.
    pub fn fill_value(&self, j: &Json) -> (r: Option<Json>)
        ensures
            match fills_value(self.names(), self.values(), j@) {
                Some(v) => r is Some && r->0@ == v,
                None => r is None,
            },
        decreases j,
    {
        proof {
            lemma_said(*j);
        }
        match j {
            Json::Text(s) => {
                let v = chars_of(s.as_str());
                let t = trim(&v);
                if t.len() >= 3 && t[0] == '$' && t[1] == '{' && t[t.len() - 1] == '}' {
                    let name = text_of(&piece(&t, 2, t.len() - 1));
                    let at = crate::json::find_field(&self.wholes, name.as_str());
                    if at < self.wholes.len() {
                        assert(self.values()[at as int].1 == self.wholes@[at as int].1@);
                        return Some(self.wholes[at].1.clone());
                    }
                }
                match self.fill(s.as_str()) {
                    Some(filled) => Some(Json::Text(filled)),
                    None => None,
                }
            },
            Json::List(v) => {
                let ghost l = each(v@);
                let mut out: Vec<Json> = Vec::new();
                let mut i: usize = 0;
                assert(each(out@) =~= fills_items(self.names(), self.values(), l, 0));
                while i < v.len()
                    invariant
                        i <= v@.len(),
                        *j == Json::List(*v),
                        l == each(v@),
                        each(out@) == fills_items(self.names(), self.values(), l, i as int),
                    decreases v@.len() - i,
                {
                    assert(decreases_to!(*j => j->List_0@[i as int]));
                    assert(l[i as int] == v@[i as int]@);
                    if let Some(one) = self.fill_value(&v[i]) {
                        add_item(&mut out, one);
                    }
                    i = i + 1;
                }
                Some(list(out))
            },
            Json::Object(v) => {
                let ghost fs = fields(v@);
                let mut out: Vec<(String, Json)> = Vec::new();
                let mut i: usize = 0;
                assert(fields(out@) =~= fills_fields(self.names(), self.values(), fs, 0));
                while i < v.len()
                    invariant
                        i <= v@.len(),
                        *j == Json::Object(*v),
                        fs == fields(v@),
                        fields(out@) == fills_fields(self.names(), self.values(), fs, i as int),
                    decreases v@.len() - i,
                {
                    assert(decreases_to!(*j => j->Object_0@[i as int].1));
                    assert(fs[i as int] == (v@[i as int].0@, v@[i as int].1@));
                    if let Some(one) = self.fill_value(&v[i].1) {
                        add_field(&mut out, v[i].0.as_str(), one);
                    }
                    i = i + 1;
                }
                Some(object(out))
            },
            _ => Some(j.clone()),
        }
    }
}

/// A name stands for what it was given, and others for what they did.
pub proof fn law_a_name_stands_for_what_it_was_given(
    ps: Seq<(Seq<char>, Seq<char>)>,
    name: Seq<char>,
    text: Seq<char>,
    other: Seq<char>,
)
    ensures
        stands_for(with_name(ps, name, text), name) == Some(text),
        other != name ==> stands_for(with_name(ps, name, text), other) == stands_for(ps, other),
{
    let now = with_name(ps, name, text);
    lemma_name_place(ps, name, 0);
    lemma_name_place(ps, other, 0);
    lemma_name_place(now, name, 0);
    lemma_name_place(now, other, 0);
    let (at, o) = (name_place(ps, name, 0), name_place(ps, other, 0));
    let (a, b) = (name_place(now, name, 0), name_place(now, other, 0));
    assert(now[at].0 == name);
    assert(a <= at);
    if a < at {
        assert(now[a] == ps[a]);
    }
    if other != name {
        if o < ps.len() {
            assert(now[o].0 == other);
            if b < o {
                assert(now[b].0 == ps[b].0);
            }
        } else if b < now.len() {
            if b < ps.len() {
                assert(now[b].0 == ps[b].0);
            }
        }
    }
}

proof fn lemma_name_place(ps: Seq<(Seq<char>, Seq<char>)>, name: Seq<char>, i: int)
    requires
        0 <= i <= ps.len(),
    ensures
        i <= name_place(ps, name, i) <= ps.len(),
        forall|k: int| i <= k < name_place(ps, name, i) ==> (#[trigger] ps[k]).0 != name,
        name_place(ps, name, i) < ps.len() ==> ps[name_place(ps, name, i)].0 == name,
    decreases ps.len() - i,
{
    if i < ps.len() && ps[i].0 != name {
        lemma_name_place(ps, name, i + 1);
    }
}

/// A placeholder in a text gives way to what its name stands for, and what comes before
/// it stays. What comes behind it is filled in the same way. A text without any stays
/// as it is.
pub proof fn law_a_placeholder_gives_way(
    ps: Seq<(Seq<char>, Seq<char>)>,
    before: Seq<char>,
    name: Seq<char>,
    after: Seq<char>,
)
    requires
        !before.contains('$'),
        !name.contains('}'),
    ensures
        fills(ps, before) == Some(before),
        ({
            let s = before + seq!['$', '{'] + name + seq!['}'] + after;
            fills(ps, s) == match (stands_for(ps, name), fills(ps, after)) {
                (Some(v), Some(rest)) => Some(before + v + rest),
                _ => None,
            }
        }),
{
    let open = seq!['$', '{'];
    let s = before + open + name + seq!['}'] + after;
    let at = before.len() as int;
    lemma_next_match(before, open, 0);
    if let Some(f) = next_match(before, open, 0) {
        assert(before.subrange(f, f + 2)[0] == before[f]);
        assert(before.contains('$'));
    }
    assert(s.subrange(at, at + 2) =~= open);
    lemma_first_open(s, open, 0, at);
    let end = at + 2 + name.len();
    assert(s[at] == '$' && s[at + 1] == '{' && s[end] == '}');
    assert forall|k: int| at <= k < end implies #[trigger] s[k] != '}' by {
        if k >= at + 2 {
            assert(s[k] == name[k - at - 2]);
        }
    }
    lemma_first_place_is(s, '}', at, end);
    assert(s.subrange(at + 2, end) =~= name);
    assert(s.skip(end + 1) =~= after);
    assert(s.take(at) =~= before);
}

proof fn lemma_first_open(s: Seq<char>, open: Seq<char>, i: int, at: int)
    requires
        0 <= i <= at,
        open == seq!['$', '{'],
        at + 2 <= s.len(),
        s.subrange(at, at + 2) == open,
        forall|k: int| i <= k < at ==> #[trigger] s[k] != '$',
    ensures
        next_match(s, open, i) == Some(at),
    decreases at - i,
{
    if i < at {
        assert(s.subrange(i, i + 2)[0] == s[i]);
        lemma_first_open(s, open, i + 1, at);
    }
}

proof fn lemma_first_place_is(s: Seq<char>, c: char, i: int, at: int)
    requires
        0 <= i <= at < s.len(),
        s[at] == c,
        forall|k: int| i <= k < at ==> #[trigger] s[k] != c,
    ensures
        first_place(s, c, i) == at,
    decreases at - i,
{
    if i < at {
        lemma_first_place_is(s, c, i + 1, at);
    }
}

} // verus!
