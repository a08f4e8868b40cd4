//! A JSON value, as messages carry one.
use vstd::prelude::*;

use crate::chars::same;
use crate::numbers::{decimal, write_number};

verus! {

/// A JSON value. A number is kept as a natural number, as a negative one, or,
/// where it is neither, by the way it is written.
#[derive(Debug)]
pub enum Json {
    Null,
    Bool(bool),
    Natural(u64),
    Negative(i64),
    Fraction(String),
    Text(String),
    List(Vec<Json>),
    Object(Vec<(String, Json)>),
}

/// What a JSON value says.
pub ghost enum Value {
    Null,
    Bool(bool),
    Natural(u64),
    Negative(i64),
    Fraction(Seq<char>),
    Text(Seq<char>),
    List(Seq<Value>),
    Object(Seq<(Seq<char>, Value)>),
}

/// What a value says.
pub open spec fn said(j: Json) -> Value
    decreases j,
{
    match j {
        Json::Null => Value::Null,
        Json::Bool(b) => Value::Bool(b),
        Json::Natural(n) => Value::Natural(n),
        Json::Negative(n) => Value::Negative(n),
        Json::Fraction(s) => Value::Fraction(s@),
        Json::Text(s) => Value::Text(s@),
        Json::List(v) => Value::List(
            Seq::new(
                v@.len(),
                |i: int|
                    if 0 <= i < v@.len() {
                        said(v@[i])
                    } else {
                        Value::Null
                    },
            ),
        ),
        Json::Object(v) => Value::Object(
            Seq::new(
                v@.len(),
                |i: int|
                    if 0 <= i < v@.len() {
                        (v@[i].0@, said(v@[i].1))
                    } else {
                        (Seq::empty(), Value::Null)
                    },
            ),
        ),
    }
}

impl View for Json {
    type V = Value;

    open spec fn view(&self) -> Value {
        said(*self)
    }
}

/// What the items of a list say.
pub open spec fn each(v: Seq<Json>) -> Seq<Value> {
    v.map_values(|j: Json| j@)
}

/// What the fields of an object say.
pub open spec fn fields(v: Seq<(String, Json)>) -> Seq<(Seq<char>, Value)> {
    v.map_values(|f: (String, Json)| (f.0@, f.1@))
}

/// A list says what its items say, and an object what its fields say.
pub proof fn lemma_said(j: Json)
    ensures
        match j {
            Json::List(v) => j@ == Value::List(each(v@)),
            Json::Object(v) => j@ == Value::Object(fields(v@)),
            _ => true,
        },
{
    match j {
        Json::List(v) => {
            assert(j@->List_0 =~= each(v@));
        },
        Json::Object(v) => {
            assert(j@->Object_0 =~= fields(v@));
        },
        _ => {},
    }
}

// ---------------------------------------------------------------------------
// Looking into one
// ---------------------------------------------------------------------------

/// The place of a field in an object, or the end.
pub open spec fn place_of(fs: Seq<(Seq<char>, Value)>, key: Seq<char>, i: int) -> int
    decreases fs.len() - i,
{
    if 0 <= i < fs.len() && fs[i].0 != key { place_of(fs, key, i + 1) } else { i }
}

/// A field of a value, where that is an object that has it.
pub open spec fn field(v: Value, key: Seq<char>) -> Option<Value> {
    match v {
        Value::Object(fs) => {
            let at = place_of(fs, key, 0);
            if at < fs.len() { Some(fs[at].1) } else { None }
        },
        _ => None,
    }
}

/// A text.
pub open spec fn text_in(v: Option<Value>) -> Option<Seq<char>> {
    match v {
        Some(Value::Text(s)) => Some(s),
        _ => None,
    }
}

/// A whole number that fits.
pub open spec fn int_in(v: Option<Value>) -> Option<i64> {
    match v {
        Some(Value::Natural(n)) => if n <= i64::MAX { Some(n as i64) } else { None },
        Some(Value::Negative(n)) => Some(n),
        _ => None,
    }
}

/// A natural number.
pub open spec fn nat_in(v: Option<Value>) -> Option<u64> {
    match v {
        Some(Value::Natural(n)) => Some(n),
        _ => None,
    }
}

/// A truth.
pub open spec fn bool_in(v: Option<Value>) -> Option<bool> {
    match v {
        Some(Value::Bool(b)) => Some(b),
        _ => None,
    }
}

/// A list.
pub open spec fn list_in(v: Option<Value>) -> Option<Seq<Value>> {
    match v {
        Some(Value::List(l)) => Some(l),
        _ => None,
    }
}

/// What a value says that may not be there.
pub open spec fn maybe(j: Option<&Json>) -> Option<Value> {
    match j {
        Some(j) => Some(j@),
        None => None,
    }
}

/// The field of a value that may not be there.
pub open spec fn field_in(v: Option<Value>, key: Seq<char>) -> Option<Value> {
    match v {
        Some(v) => field(v, key),
        None => None,
    }
}

/// The place of a field in an object, or the end.
pub fn find_field(fs: &Vec<(String, Json)>, key: &str) -> (at: usize)
    ensures
        at == place_of(fields(fs@), key@, 0),
        at <= fs@.len(),
        at < fs@.len() ==> fs@[at as int].0@ == key@,
{
    let mut at: usize = 0;
    while at < fs.len()
        invariant
            at <= fs@.len(),
            place_of(fields(fs@), key@, 0) == place_of(fields(fs@), key@, at as int),
        decreases fs@.len() - at,
    {
        assert(fields(fs@)[at as int] == (fs@[at as int].0@, fs@[at as int].1@));
        if same(fs[at].0.as_str(), key) {
            return at;
        }
        at = at + 1;
    }
    at
}

impl Json {
    /// A field, where this is an object that has it.
    pub fn get(&self, key: &str) -> (r: Option<&Json>)
        ensures
            maybe(r) == field(self@, key@),
    {
        proof {
            lemma_said(*self);
        }
        match self {
            Json::Object(fs) => {
                let at = find_field(fs, key);
                if at < fs.len() {
                    assert(fields(fs@)[at as int] == (fs@[at as int].0@, fs@[at as int].1@));
                    Some(&fs[at].1)
                } else {
                    None
                }
            },
            _ => None,
        }
    }
}

/// The text that a value is, where it is one.
pub fn as_str<'a>(j: Option<&'a Json>) -> (r: Option<&'a str>)
    ensures
        match text_in(maybe(j)) {
            Some(s) => r is Some && r->0@ == s,
            None => r is None,
        },
{
    match j {
        Some(Json::Text(s)) => Some(s.as_str()),
        _ => None,
    }
}

/// The whole number that a value is, where it is one that fits.
pub fn as_i64(j: Option<&Json>) -> (r: Option<i64>)
    ensures
        r == int_in(maybe(j)),
{
    match j {
        Some(Json::Natural(n)) => if *n <= i64::MAX as u64 { Some(*n as i64) } else { None },
        Some(Json::Negative(n)) => Some(*n),
        _ => None,
    }
}

/// The natural number that a value is, where it is one.
pub fn as_u64(j: Option<&Json>) -> (r: Option<u64>)
    ensures
        r == nat_in(maybe(j)),
{
    match j {
        Some(Json::Natural(n)) => Some(*n),
        _ => None,
    }
}

/// The truth that a value is, where it is one.
pub fn as_bool(j: Option<&Json>) -> (r: Option<bool>)
    ensures
        r == bool_in(maybe(j)),
{
    match j {
        Some(Json::Bool(b)) => Some(*b),
        _ => None,
    }
}

/// The list that a value is, where it is one.
pub fn as_array<'a>(j: Option<&'a Json>) -> (r: Option<&'a Vec<Json>>)
    ensures
        match list_in(maybe(j)) {
            Some(l) => r is Some && each(r->0@) == l,
            None => r is None,
        },
{
    match j {
        Some(j) => {
            proof {
                lemma_said(*j);
            }
            match j {
                Json::List(v) => Some(v),
                _ => None,
            }
        },
        None => None,
    }
}

// ---------------------------------------------------------------------------
// Making one
// ---------------------------------------------------------------------------

/// Fields with one set: in its place where there is one, and else at the end.
pub open spec fn with_field(
    fs: Seq<(Seq<char>, Value)>,
    key: Seq<char>,
    v: Value,
) -> Seq<(Seq<char>, Value)> {
    let at = place_of(fs, key, 0);
    if at < fs.len() { fs.update(at, (fs[at].0, v)) } else { fs.push((key, v)) }
}

/// Set a field.
pub fn set_field(fs: &mut Vec<(String, Json)>, key: &str, v: Json)
    ensures
        fields(final(fs)@) == with_field(fields(old(fs)@), key@, v@),
{
    let at = find_field(fs, key);
    let ghost had = fs@;
    let ghost is = v@;
    if at < fs.len() {
        let name = fs[at].0.clone();
        fs.set(at, (name, v));
        assert(fields(fs@) =~= fields(had).update(at as int, (fields(had)[at as int].0, is)));
    } else {
        fs.push((key.to_owned(), v));
        assert(fields(fs@) =~= fields(had).push((key@, is)));
    }
}

/// Add a field at the end.
pub fn add_field(fs: &mut Vec<(String, Json)>, key: &str, v: Json)
    ensures
        fields(final(fs)@) == fields(old(fs)@).push((key@, v@)),
{
    let ghost had = fs@;
    let ghost is = v@;
    fs.push((key.to_owned(), v));
    assert(fields(fs@) =~= fields(had).push((key@, is)));
}

/// Add an item at the end.
pub fn add_item(items: &mut Vec<Json>, v: Json)
    ensures
        each(final(items)@) == each(old(items)@).push(v@),
{
    let ghost had = items@;
    let ghost is = v@;
    items.push(v);
    assert(each(items@) =~= each(had).push(is));
}

/// An object of fields.
pub fn object(fs: Vec<(String, Json)>) -> (j: Json)
    ensures
        j@ == Value::Object(fields(fs@)),
{
    let j = Json::Object(fs);
    proof {
        lemma_said(j);
    }
    j
}

/// A list of items.
pub fn list(items: Vec<Json>) -> (j: Json)
    ensures
        j@ == Value::List(each(items@)),
{
    let j = Json::List(items);
    proof {
        lemma_said(j);
    }
    j
}

/// A text.
pub fn string(s: &str) -> (j: Json)
    ensures
        j@ == Value::Text(s@),
{
    Json::Text(s.to_owned())
}

/// What a whole number says.
pub open spec fn int_value(n: i64) -> Value {
    if n >= 0 { Value::Natural(n as u64) } else { Value::Negative(n) }
}

/// A whole number.
pub fn number(n: i64) -> (j: Json)
    ensures
        j@ == int_value(n),
{
    if n >= 0 {
        Json::Natural(n as u64)
    } else {
        Json::Negative(n)
    }
}

impl Clone for Json {
    fn clone(&self) -> (j: Json)
        ensures
            j@ == self@,
        decreases self,
    {
        match self {
            Json::Null => Json::Null,
            Json::Bool(b) => Json::Bool(*b),
            Json::Natural(n) => Json::Natural(*n),
            Json::Negative(n) => Json::Negative(*n),
            Json::Fraction(s) => Json::Fraction(s.clone()),
            Json::Text(s) => Json::Text(s.clone()),
            Json::List(v) => {
                let mut items: Vec<Json> = Vec::new();
                let mut i: usize = 0;
                assert(each(items@) =~= each(v@).take(0));
                while i < v.len()
                    invariant
                        i <= v@.len(),
                        *self == Json::List(*v),
                        each(items@) == each(v@).take(i as int),
                    decreases v@.len() - i,
                {
                    assert(decreases_to!(*self => self->List_0@[i as int]));
                    add_item(&mut items, v[i].clone());
                    i = i + 1;
                    assert(each(items@) =~= each(v@).take(i as int));
                }
                assert(each(items@) =~= each(v@));
                proof {
                    lemma_said(*self);
                }
                list(items)
            },
            Json::Object(v) => {
                let mut fs: Vec<(String, Json)> = Vec::new();
                let mut i: usize = 0;
                assert(fields(fs@) =~= fields(v@).take(0));
                while i < v.len()
                    invariant
                        i <= v@.len(),
                        *self == Json::Object(*v),
                        fields(fs@) == fields(v@).take(i as int),
                    decreases v@.len() - i,
                {
                    assert(decreases_to!(*self => self->Object_0@[i as int].1));
                    add_field(&mut fs, v[i].0.as_str(), v[i].1.clone());
                    i = i + 1;
                    assert(fields(fs@) =~= fields(v@).take(i as int));
                }
                assert(fields(fs@) =~= fields(v@));
                proof {
                    lemma_said(*self);
                }
                object(fs)
            },
        }
    }
}

// ---------------------------------------------------------------------------
// Writing one
// ---------------------------------------------------------------------------

/// Whether a character stands for itself between quotes.
pub open spec fn stands(c: char) -> bool {
    (c as u32) >= 0x20 && c != '"' && c != '\\'
}

/// How `serde_json` writes a text that holds a character which does not stand for
/// itself.
pub uninterp spec fn quoted_beyond(s: Seq<char>) -> Seq<char>;

/// A text, in quotes.
pub open spec fn quoted(s: Seq<char>) -> Seq<char> {
    if forall|i: int| 0 <= i < s.len() ==> stands(#[trigger] s[i]) {
        s.push('"').insert(0, '"')
    } else {
        quoted_beyond(s)
    }
}

/// The `Display` of a `serde_json::Value` that is a text depends on the text alone.
/// One in which every character stands for itself comes out as it is, between
/// quotes. Those that do not are the quote, the backslash and what comes before
/// the space.
#[verifier::external_body]
fn quote(s: &str) -> (r: String)
    ensures
        (forall|i: int| 0 <= i < s@.len() ==> stands(#[trigger] s@[i])) ==> r@ == s@.push(
            '"',
        ).insert(0, '"'),
        (exists|i: int| 0 <= i < s@.len() && !stands(#[trigger] s@[i])) ==> r@ == quoted_beyond(s@),
{
    serde_json::Value::from(s).to_string()
}

/// A negative number, or one that is not negative, in decimal.
pub open spec fn signed(n: int) -> Seq<char> {
    if n < 0 { decimal((-n) as nat).insert(0, '-') } else { decimal(n as nat) }
}

/// A value as it is written, with nothing between its parts.
pub open spec fn written(v: Value) -> Seq<char>
    decreases v, 1int,
{
    match v {
        Value::Null => seq!['n', 'u', 'l', 'l'],
        Value::Bool(b) => if b {
            seq!['t', 'r', 'u', 'e']
        } else {
            seq!['f', 'a', 'l', 's', 'e']
        },
        Value::Natural(n) => decimal(n as nat),
        Value::Negative(n) => signed(n as int),
        Value::Fraction(s) => s,
        Value::Text(s) => quoted(s),
        Value::List(l) => written_items(l, l.len() as int).insert(0, '[').push(']'),
        Value::Object(fs) => written_fields(fs, fs.len() as int).insert(0, '{').push('}'),
    }
}

/// The first `n` items of a list as they are written.
pub open spec fn written_items(l: Seq<Value>, n: int) -> Seq<char>
    decreases l, 0int, n,
{
    if n <= 0 || n > l.len() {
        Seq::empty()
    } else {
        let less = written_items(l, n - 1);
        let comma = if n > 1 { less.push(',') } else { less };
        comma + written(l[n - 1])
    }
}

/// The first `n` fields of an object as they are written.
pub open spec fn written_fields(fs: Seq<(Seq<char>, Value)>, n: int) -> Seq<char>
    decreases fs, 0int, n,
{
    if n <= 0 || n > fs.len() {
        Seq::empty()
    } else {
        let less = written_fields(fs, n - 1);
        let comma = if n > 1 { less.push(',') } else { less };
        (comma + quoted(fs[n - 1].0)).push(':') + written(fs[n - 1].1)
    }
}

/// Write a text, in quotes.
pub fn write_quoted(out: &mut String, s: &str)
    ensures
        final(out)@ == old(out)@ + quoted(s@),
{
    out.append(quote(s).as_str());
}

/// Write a whole number.
pub fn write_signed(out: &mut String, n: i64)
    ensures
        final(out)@ == old(out)@ + signed(n as int),
{
    if n < 0 {
        out.push('-');
        let size: u64 = (-(n as i128)) as u64;
        write_number(out, size);
    } else {
        write_number(out, n as u64);
    }
    assert(out@ =~= old(out)@ + signed(n as int));
}

/// Write a value, with nothing between its parts.
pub fn write_json(out: &mut String, j: &Json)
    ensures
        final(out)@ == old(out)@ + written(j@),
    decreases j,
{
    proof {
        lemma_said(*j);
        reveal_strlit("null");
        reveal_strlit("true");
        reveal_strlit("false");
    }
    match j {
        Json::Null => {
            out.append("null");
            assert(out@ =~= old(out)@ + written(j@));
        },
        Json::Bool(b) => {
            if *b {
                out.append("true");
            } else {
                out.append("false");
            }
            assert(out@ =~= old(out)@ + written(j@));
        },
        Json::Natural(n) => {
            write_number(out, *n);
        },
        Json::Negative(n) => {
            write_signed(out, *n);
        },
        Json::Fraction(s) => {
            out.append(s.as_str());
        },
        Json::Text(s) => {
            write_quoted(out, s.as_str());
        },
        Json::List(v) => {
            out.push('[');
            let ghost base = out@;
            let ghost l = each(v@);
            let mut i: usize = 0;
            assert(out@ =~= base + written_items(l, 0));
            while i < v.len()
                invariant
                    i <= v@.len(),
                    *j == Json::List(*v),
                    l == each(v@),
                    out@ == base + written_items(l, i as int),
                decreases v@.len() - i,
            {
                if i > 0 {
                    out.push(',');
                }
                assert(decreases_to!(*j => j->List_0@[i as int]));
                write_json(out, &v[i]);
                assert(l[i as int] == v@[i as int]@);
                i = i + 1;
                assert(out@ =~= base + written_items(l, i as int));
            }
            out.push(']');
            assert(out@ =~= old(out)@ + written(j@));
        },
        Json::Object(v) => {
            out.push('{');
            let ghost base = out@;
            let ghost fs = fields(v@);
            let mut i: usize = 0;
            assert(out@ =~= base + written_fields(fs, 0));
            while i < v.len()
                invariant
                    i <= v@.len(),
                    *j == Json::Object(*v),
                    fs == fields(v@),
                    out@ == base + written_fields(fs, i as int),
                decreases v@.len() - i,
            {
                if i > 0 {
                    out.push(',');
                }
                write_quoted(out, v[i].0.as_str());
                out.push(':');
                assert(decreases_to!(*j => j->Object_0@[i as int].1));
                write_json(out, &v[i].1);
                assert(fs[i as int] == (v@[i as int].0@, v@[i as int].1@));
                i = i + 1;
                assert(out@ =~= base + written_fields(fs, i as int));
            }
            out.push('}');
            assert(out@ =~= old(out)@ + written(j@));
        },
    }
}

/// A value as it is written.
pub fn show(j: &Json) -> (s: String)
    ensures
        s@ == written(j@),
{
    let mut s: String = String::new();
    write_json(&mut s, j);
    assert(s@ =~= written(j@));
    s
}

} // verus!
