//! What an adapter is launched with: a manifest's account of it, with the
//! placeholders filled in.
use vstd::prelude::*;

use crate::chars::same;
use crate::json::{add_item, as_str, each, field, show, text_in, written, Json, Value};
use crate::path::{above, last_name, parent, stem, stem_of, unsuffixed, without_extension};
use crate::source::{class_of, declared_class, named_package, package_name};
use crate::split::lines_of;
use crate::strings::{contains, copy_maybe, copy_texts, holds, maybe_text, text_of, texts};
use crate::uri::{uri, uri_of};
use crate::vars::{fills, fills_value, known_of, pairs, with_name, Environment, Vars};

verus! {

/// A question for a language server whose answer goes into a launch.
#[derive(Debug)]
pub struct Resolve {
    pub command: String,
    pub arguments: Vec<Json>,
    /// Which field of the launch each field of the answer goes into: first
    /// the one it goes into.
    pub into: Vec<(String, String)>,
}

/// A debugger that a language server starts.
#[derive(Debug)]
pub struct FromServer {
    pub server: String,
    pub start: String,
    pub resolve: Option<Resolve>,
}

/// An adapter, as a manifest gives it.
#[derive(Debug)]
pub struct Adapter {
    /// Its full name: `python/debugpy`.
    pub id: String,
    pub name: String,
    pub command: String,
    pub args: Vec<String>,
    pub roots: Vec<String>,
    pub launch: Json,
    pub attach: Option<Json>,
    pub from_server: Option<FromServer>,
    /// What to do about it not being there.
    pub see: Option<String>,
    pub env: Vec<(String, String)>,
}

/// Which of the two requests a launch object is for.
pub open spec fn request_in(launch: Value) -> Seq<char> {
    if text_in(field(launch, "request"@)) == Some("attach"@) { "attach"@ } else { "launch"@ }
}

impl Adapter {
    /// Which of the two requests starts a program: `attach` where the launch
    /// object says so.
    pub fn request(&self) -> (s: &'static str)
        ensures
            s@ == request_in(self.launch@),
    {
        match as_str(self.launch.get("request")) {
            Some(s) => if same(s, "attach") { "attach" } else { "launch" },
            None => "launch",
        }
    }
}

// ---------------------------------------------------------------------------
// Environments
// ---------------------------------------------------------------------------

/// Whether a text asks for an environment.
pub open spec fn asks(s: Seq<char>) -> bool {
    holds(s, "${python}"@) || holds(s, "${venv}"@) || holds(s, "${venv_bin}"@)
}

/// Whether one of the texts asks for an environment.
pub open spec fn any_asks(ts: Seq<Seq<char>>) -> bool {
    exists|i: int| 0 <= i < ts.len() && asks(#[trigger] ts[i])
}

/// Whether an adapter is run out of an environment, by what its manifest asks
/// for.
pub open spec fn in_environment(a: Adapter) -> bool {
    ||| asks(a.command@)
    ||| any_asks(texts(a.args@))
    ||| exists|i: int| 0 <= i < a.env@.len() && asks((#[trigger] a.env@[i]).1@)
    ||| asks(written(a.launch@))
}

fn mentions(s: &str) -> (yes: bool)
    ensures
        yes == asks(s@),
{
    contains(s, "${python}") || contains(s, "${venv}") || contains(s, "${venv_bin}")
}

/// Whether an adapter is run out of an environment at all, asked of the
/// manifest as it was written.
pub fn uses_an_environment(a: &Adapter) -> (yes: bool)
    ensures
        yes == in_environment(*a),
{
    if mentions(a.command.as_str()) {
        return true;
    }
    let mut i: usize = 0;
    while i < a.args.len()
        invariant
            i <= a.args@.len(),
            forall|k: int| 0 <= k < i ==> !asks(#[trigger] texts(a.args@)[k]),
        decreases a.args@.len() - i,
    {
        assert(texts(a.args@)[i as int] == a.args@[i as int]@);
        if mentions(a.args[i].as_str()) {
            return true;
        }
        i = i + 1;
    }
    let mut j: usize = 0;
    while j < a.env.len()
        invariant
            j <= a.env@.len(),
            forall|k: int| 0 <= k < j ==> !asks((#[trigger] a.env@[k]).1@),
        decreases a.env@.len() - j,
    {
        if mentions(a.env[j].1.as_str()) {
            return true;
        }
        j = j + 1;
    }
    let text = show(&a.launch);
    mentions(text.as_str())
}

/// Where an interpreter came from, in words.
pub open spec fn came_from(a: Adapter, env: Option<Environment>) -> Option<Seq<char>> {
    if !in_environment(a) {
        None
    } else {
        match env {
            Some(e) => Some(e.about@ + " — "@ + e.root@),
            None => Some("the PATH — this project has no Python environment"@),
        }
    }
}

/// Where the interpreter came from, in words. None for an adapter that never
/// asked for one.
pub fn where_from(a: &Adapter, env: &Option<Environment>) -> (r: Option<String>)
    ensures
        maybe_text(r) == came_from(*a, *env),
{
    if !uses_an_environment(a) {
        return None;
    }
    match env {
        Some(e) => {
            let mut s: String = e.about.clone();
            s.append(" — ");
            s.append(e.root.as_str());
            Some(s)
        },
        None => Some("the PATH — this project has no Python environment".to_owned()),
    }
}

// ---------------------------------------------------------------------------
// Filling in
// ---------------------------------------------------------------------------

/// What is known of a debugging run: the project and its environment, the
/// file, and what the file and the manifest of the project say.
pub open spec fn known_for(
    root: Seq<char>,
    env: Option<Environment>,
    file: Seq<char>,
    source: Option<Seq<char>>,
    manifest: Option<Seq<char>>,
) -> Seq<(Seq<char>, Seq<char>)> {
    let a = known_of(root, env);
    let b = if env is None { with_name(a, "python"@, "python3"@) } else { a };
    let c = with_name(b, "file"@, file);
    let d = match above(file) {
        Some(dir) => with_name(c, "file_dir"@, dir),
        None => c,
    };
    let e = with_name(d, "file_stem"@, unsuffixed(file));
    let f = match last_name(file) {
        Some(name) => with_name(e, "file_base"@, stem_of(name)),
        None => e,
    };
    let class = match source {
        Some(text) => class_of(file, text),
        None => None,
    };
    let g = match class {
        Some(name) => with_name(f, "file_class"@, name),
        None => f,
    };
    let package = match manifest {
        Some(text) => named_package(lines_of(text), 0, false),
        None => None,
    };
    let h = match package {
        Some(name) => with_name(g, "crate"@, name),
        None => g,
    };
    with_name(h, "file_uri"@, uri(file))
}

fn vars_for(
    root: &str,
    env: &Option<Environment>,
    file: &str,
    source: &Option<String>,
    manifest: &Option<String>,
) -> (vars: Vars)
    ensures
        vars.names() == known_for(root@, *env, file@, maybe_text(*source), maybe_text(*manifest)),
        vars.values() == Seq::<(Seq<char>, Value)>::empty(),
{
    let mut vars = Vars::new(root, env);
    if env.is_none() {
        vars.set("python", "python3");
    }
    vars.set("file", file);
    if let Some(dir) = parent(file) {
        vars.set("file_dir", dir.as_str());
    }
    let bare = without_extension(file);
    vars.set("file_stem", bare.as_str());
    if let Some(base) = stem(file) {
        let base = text_of(&base);
        vars.set("file_base", base.as_str());
    }
    if let Some(text) = source {
        if let Some(class) = declared_class(file, text.as_str()) {
            vars.set("file_class", class.as_str());
        }
    }
    if let Some(text) = manifest {
        if let Some(name) = package_name(text.as_str()) {
            vars.set("crate", name.as_str());
        }
    }
    let address = uri_of(file);
    vars.set("file_uri", address.as_str());
    vars
}

/// A text filled in, or as it was written where it cannot be.
pub open spec fn filled_text(ps: Seq<(Seq<char>, Seq<char>)>, s: Seq<char>) -> Seq<char> {
    match fills(ps, s) {
        Some(t) => t,
        None => s,
    }
}

/// A value filled in, or as it was written where it cannot be.
pub open spec fn filled_value(ps: Seq<(Seq<char>, Seq<char>)>, v: Value) -> Value {
    match fills_value(ps, Seq::empty(), v) {
        Some(w) => w,
        None => v,
    }
}

/// Names with texts, filled in. One whose text cannot be is left out.
pub open spec fn filled_env(
    ps: Seq<(Seq<char>, Seq<char>)>,
    env: Seq<(Seq<char>, Seq<char>)>,
) -> Seq<(Seq<char>, Seq<char>)>
    decreases env.len(),
{
    if env.len() == 0 {
        env
    } else {
        let less = filled_env(ps, env.drop_last());
        match fills(ps, env.last().1) {
            Some(t) => less.push((env.last().0, t)),
            None => less,
        }
    }
}

/// Whether a question is another, filled in.
pub open spec fn resolves(r: Resolve, was: Resolve, ps: Seq<(Seq<char>, Seq<char>)>) -> bool {
    &&& r.command@ == was.command@
    &&& each(r.arguments@) == each(was.arguments@).map_values(|v: Value| filled_value(ps, v))
    &&& pairs(r.into@) == pairs(was.into@)
}

/// Whether a debugger of a language server is another, filled in.
pub open spec fn serves(
    f: Option<FromServer>,
    was: Option<FromServer>,
    ps: Seq<(Seq<char>, Seq<char>)>,
) -> bool {
    match (f, was) {
        (Some(f), Some(was)) => {
            &&& f.server@ == was.server@
            &&& f.start@ == was.start@
            &&& match (f.resolve, was.resolve) {
                (Some(r), Some(w)) => resolves(r, w, ps),
                (None, None) => true,
                _ => false,
            }
        },
        (None, None) => true,
        _ => false,
    }
}

/// Whether an adapter is another, filled in.
pub open spec fn fills_adapter(
    a: Adapter,
    was: Adapter,
    ps: Seq<(Seq<char>, Seq<char>)>,
) -> bool {
    &&& a.id@ == was.id@
    &&& a.name@ == was.name@
    &&& a.command@ == filled_text(ps, was.command@)
    &&& texts(a.args@) == texts(was.args@).map_values(|s: Seq<char>| filled_text(ps, s))
    &&& texts(a.roots@) == texts(was.roots@)
    &&& a.launch@ == filled_value(ps, was.launch@)
    &&& match (a.attach, was.attach) {
        (Some(x), Some(y)) => x@ == filled_value(ps, y@),
        (None, None) => true,
        _ => false,
    }
    &&& serves(a.from_server, was.from_server, ps)
    &&& maybe_text(a.see) == maybe_text(was.see)
    &&& pairs(a.env@) == filled_env(ps, pairs(was.env@))
}

fn fill_text(vars: &Vars, s: &str) -> (r: String)
    ensures
        r@ == filled_text(vars.names(), s@),
{
    match vars.fill(s) {
        Some(t) => t,
        None => s.to_owned(),
    }
}

fn fill_json(vars: &Vars, j: &Json) -> (r: Json)
    requires
        vars.values() == Seq::<(Seq<char>, Value)>::empty(),
    ensures
        r@ == filled_value(vars.names(), j@),
{
    match vars.fill_value(j) {
        Some(v) => v,
        None => j.clone(),
    }
}

/// Names with texts, held separately.
pub fn copy_pairs(v: &Vec<(String, String)>) -> (r: Vec<(String, String)>)
    ensures
        pairs(r@) == pairs(v@),
{
    let mut r: Vec<(String, String)> = Vec::new();
    let mut i: usize = 0;
    assert(pairs(r@) =~= pairs(v@).take(0));
    while i < v.len()
        invariant
            i <= v@.len(),
            pairs(r@) == pairs(v@).take(i as int),
        decreases v@.len() - i,
    {
        let ghost had = r@;
        r.push((v[i].0.clone(), v[i].1.clone()));
        assert(pairs(r@) =~= pairs(had).push((v@[i as int].0@, v@[i as int].1@)));
        i = i + 1;
        assert(pairs(r@) =~= pairs(v@).take(i as int));
    }
    assert(pairs(v@).take(i as int) =~= pairs(v@));
    r
}

fn fill_texts(vars: &Vars, v: &Vec<String>) -> (r: Vec<String>)
    ensures
        texts(r@) == texts(v@).map_values(|s: Seq<char>| filled_text(vars.names(), s)),
{
    let ghost want = texts(v@).map_values(|s: Seq<char>| filled_text(vars.names(), s));
    let mut r: Vec<String> = Vec::new();
    let mut i: usize = 0;
    assert(texts(r@) =~= want.take(0));
    while i < v.len()
        invariant
            i <= v@.len(),
            want == texts(v@).map_values(|s: Seq<char>| filled_text(vars.names(), s)),
            texts(r@) == want.take(i as int),
        decreases v@.len() - i,
    {
        let ghost had = r@;
        let one = fill_text(vars, v[i].as_str());
        let ghost is = one@;
        assert(texts(v@)[i as int] == v@[i as int]@);
        r.push(one);
        assert(texts(r@) =~= texts(had).push(is));
        i = i + 1;
        assert(texts(r@) =~= want.take(i as int));
    }
    assert(want.take(i as int) =~= want);
    r
}

fn fill_each(vars: &Vars, v: &Vec<Json>) -> (r: Vec<Json>)
    requires
        vars.values() == Seq::<(Seq<char>, Value)>::empty(),
    ensures
        each(r@) == each(v@).map_values(|x: Value| filled_value(vars.names(), x)),
{
    let ghost want = each(v@).map_values(|x: Value| filled_value(vars.names(), x));
    let mut r: Vec<Json> = Vec::new();
    let mut i: usize = 0;
    assert(each(r@) =~= want.take(0));
    while i < v.len()
        invariant
            i <= v@.len(),
            vars.values() == Seq::<(Seq<char>, Value)>::empty(),
            want == each(v@).map_values(|x: Value| filled_value(vars.names(), x)),
            each(r@) == want.take(i as int),
        decreases v@.len() - i,
    {
        assert(each(v@)[i as int] == v@[i as int]@);
        add_item(&mut r, fill_json(vars, &v[i]));
        i = i + 1;
        assert(each(r@) =~= want.take(i as int));
    }
    assert(want.take(i as int) =~= want);
    r
}

fn fill_env(vars: &Vars, v: &Vec<(String, String)>) -> (r: Vec<(String, String)>)
    ensures
        pairs(r@) == filled_env(vars.names(), pairs(v@)),
{
    let ghost all = pairs(v@);
    let mut r: Vec<(String, String)> = Vec::new();
    let mut i: usize = 0;
    assert(pairs(r@) =~= filled_env(vars.names(), all.take(0)));
    while i < v.len()
        invariant
            i <= v@.len(),
            all == pairs(v@),
            pairs(r@) == filled_env(vars.names(), all.take(i as int)),
        decreases v@.len() - i,
    {
        assert(all.take(i + 1).drop_last() =~= all.take(i as int));
        assert(all[i as int] == (v@[i as int].0@, v@[i as int].1@));
        if let Some(t) = vars.fill(v[i].1.as_str()) {
            let ghost had = r@;
            let ghost is = t@;
            r.push((v[i].0.clone(), t));
            assert(pairs(r@) =~= pairs(had).push((v@[i as int].0@, is)));
        }
        i = i + 1;
    }
    assert(all.take(i as int) =~= all);
    r
}

fn fill_server(vars: &Vars, from: &Option<FromServer>) -> (r: Option<FromServer>)
    requires
        vars.values() == Seq::<(Seq<char>, Value)>::empty(),
    ensures
        serves(r, *from, vars.names()),
{
    match from {
        Some(from) => {
            let resolve = match &from.resolve {
                Some(resolve) => Some(
                    Resolve {
                        command: resolve.command.clone(),
                        arguments: fill_each(vars, &resolve.arguments),
                        into: copy_pairs(&resolve.into),
                    },
                ),
                None => None,
            };
            Some(FromServer { server: from.server.clone(), start: from.start.clone(), resolve })
        },
        None => None,
    }
}

/// An adapter with its placeholders filled in: those of a project, and which
/// program is to be run. `source` is what the file says and `manifest` what
/// the project's `Cargo.toml` does, where there is one.
pub fn filled(
    config: &Adapter,
    root: &str,
    file: &str,
    env: &Option<Environment>,
    source: &Option<String>,
    manifest: &Option<String>,
) -> (a: Adapter)
    ensures
        fills_adapter(
            a,
            *config,
            known_for(root@, *env, file@, maybe_text(*source), maybe_text(*manifest)),
        ),
{
    let vars = vars_for(root, env, file, source, manifest);
    let attach = match &config.attach {
        Some(attach) => Some(fill_json(&vars, attach)),
        None => None,
    };
    Adapter {
        id: config.id.clone(),
        name: config.name.clone(),
        command: fill_text(&vars, config.command.as_str()),
        args: fill_texts(&vars, &config.args),
        roots: copy_texts(&config.roots),
        launch: fill_json(&vars, &config.launch),
        attach,
        from_server: fill_server(&vars, &config.from_server),
        see: copy_maybe(&config.see),
        env: fill_env(&vars, &config.env),
    }
}

} // verus!
