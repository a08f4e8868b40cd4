//! What is known about a language: how to comment it out, which files are in
//! it, and what to run to get intelligence about it.
//!
//! A language is a table of facts that plugins give. A plugin that names a
//! language which another one gave already adds to it.
use vstd::prelude::*;

use crate::chars::{
    all_ascii, ascii_lower, ascii_lowercased, chars_of, debug_text, debugged,
    law_small_letters_stay_small, lemma_ascii_lower, lowercase, lowercased, same,
};
use crate::jdk::{expand, expanded};
use crate::json::Json;
use crate::lsp::{maybe_json, Config, Recipe};
use crate::path::{ancestors, ancestry, above, extension, file_name, last_name, parent, suffix_of};
use crate::rope::{rope_text, slice, start_of_line};
use crate::rpc::views;
use crate::split::{cut, cut_at, deep};
use crate::strings::{
    copy_texts, ends, is_one_of, law_trimming_twice_is_trimming_once, lemma_trimmed, maybe_text,
    piece, strip, stripped, text_of, texts, trim, trim_back, trim_end, trimmed,
};
use crate::vars::pairs;

verus! {

// ---------------------------------------------------------------------------
// A language
// ---------------------------------------------------------------------------

/// Which language, as a document holds onto one: a place in the registry.
#[derive(Clone, Copy, PartialEq, Eq, Hash, Debug, PartialOrd, Ord, Structural)]
pub struct LangId(pub u16);

impl LangId {
    /// A file that there is nothing to say about. Always the first entry.
    pub fn plain() -> (id: LangId)
        ensures
            id == LangId(0),
    {
        LangId(0)
    }
}

/// Where a grammar comes from.
#[derive(Debug)]
pub enum GrammarSource {
    /// One that comes with the editor, by its name.
    BuiltIn(String),
    /// A shared library on disk, opened when it is first needed.
    Library { path: String, symbol: String, highlights: String },
}

/// Where a grammar comes from.
pub ghost enum Source {
    BuiltIn(Seq<char>),
    Library(Seq<char>, Seq<char>, Seq<char>),
}

impl View for GrammarSource {
    type V = Source;

    open spec fn view(&self) -> Source {
        match self {
            GrammarSource::BuiltIn(name) => Source::BuiltIn(name@),
            GrammarSource::Library { path, symbol, highlights } => Source::Library(
                path@,
                symbol@,
                highlights@,
            ),
        }
    }
}

/// Everything known about one language.
#[derive(Debug)]
pub struct Lang {
    pub id: LangId,
    /// What it is called.
    pub name: String,
    /// What a language server calls it.
    pub lsp_id: String,
    pub extensions: Vec<String>,
    /// Whole file names, for files with no extension.
    pub filenames: Vec<String>,
    /// Words that, in the first line of a script, mean this language.
    pub shebangs: Vec<String>,
    pub line_comment: Option<String>,
    pub block_comment: Option<(String, String)>,
    /// Characters that open and close a nesting level.
    pub brackets: Vec<(char, char)>,
    /// The language servers to try, in order.
    pub servers: Vec<Config>,
    /// Whether a plugin that is on gave this.
    pub provided: bool,
    pub grammar: Option<GrammarSource>,
}

/// Everything known about one language.
#[verifier::ext_equal]
pub ghost struct Tongue {
    pub id: LangId,
    pub name: Seq<char>,
    pub lsp_id: Seq<char>,
    pub extensions: Seq<Seq<char>>,
    pub filenames: Seq<Seq<char>>,
    pub shebangs: Seq<Seq<char>>,
    pub line_comment: Option<Seq<char>>,
    pub block_comment: Option<(Seq<char>, Seq<char>)>,
    pub brackets: Seq<(char, char)>,
    pub servers: Seq<Recipe>,
    pub provided: bool,
    pub grammar: Option<Source>,
}

/// Two texts that may not be there.
pub open spec fn maybe_pair(p: Option<(String, String)>) -> Option<(Seq<char>, Seq<char>)> {
    match p {
        Some((a, b)) => Some((a@, b@)),
        None => None,
    }
}

/// A grammar that may not be there.
pub open spec fn maybe_source(g: Option<GrammarSource>) -> Option<Source> {
    match g {
        Some(g) => Some(g@),
        None => None,
    }
}

impl View for Lang {
    type V = Tongue;

    open spec fn view(&self) -> Tongue {
        Tongue {
            id: self.id,
            name: self.name@,
            lsp_id: self.lsp_id@,
            extensions: texts(self.extensions@),
            filenames: texts(self.filenames@),
            shebangs: texts(self.shebangs@),
            line_comment: maybe_text(self.line_comment),
            block_comment: maybe_pair(self.block_comment),
            brackets: self.brackets@,
            servers: views(self.servers@),
            provided: self.provided,
            grammar: maybe_source(self.grammar),
        }
    }
}

impl Lang {
    /// Whether it has a grammar.
    pub fn has_grammar(&self) -> (yes: bool)
        ensures
            yes == self@.grammar is Some,
    {
        self.grammar.is_some()
    }

    /// Whether anything that is switched on knows about it.
    pub fn is_available(&self) -> (yes: bool)
        ensures
            yes == self@.provided,
    {
        self.provided
    }
}

/// The brackets that nearly every language has.
pub open spec fn usual_brackets() -> Seq<(char, char)> {
    seq![('(', ')'), ('[', ']'), ('{', '}')]
}

fn default_brackets() -> (v: Vec<(char, char)>)
    ensures
        v@ == usual_brackets(),
{
    let v: Vec<(char, char)> = vec![('(', ')'), ('[', ']'), ('{', '}')];
    assert(v@ =~= usual_brackets());
    v
}

/// A language with its name and nothing else.
pub open spec fn unsaid(id: LangId, name: Seq<char>) -> Tongue {
    Tongue {
        id,
        name,
        lsp_id: name,
        extensions: Seq::empty(),
        filenames: Seq::empty(),
        shebangs: Seq::empty(),
        line_comment: None,
        block_comment: None,
        brackets: usual_brackets(),
        servers: Seq::empty(),
        provided: false,
        grammar: None,
    }
}

/// A language with its name and nothing else: what it is before any plugin has
/// said anything, and what it goes back to when the one that did is switched
/// off.
pub fn blank(id: LangId, name: &str) -> (l: Lang)
    ensures
        l@ == unsaid(id, name@),
{
    let l = Lang {
        id,
        name: name.to_owned(),
        lsp_id: name.to_owned(),
        extensions: Vec::new(),
        filenames: Vec::new(),
        shebangs: Vec::new(),
        line_comment: None,
        block_comment: None,
        brackets: default_brackets(),
        servers: Vec::new(),
        provided: false,
        grammar: None,
    };
    assert(l@ =~= unsaid(id, name@));
    l
}

// ---------------------------------------------------------------------------
// What plugins say of languages
// ---------------------------------------------------------------------------

/// A language server, as a plugin's file writes it.
#[derive(Debug)]
pub struct FileServer {
    /// What to call it. Absent means after its command.
    pub name: Option<String>,
    pub command: String,
    pub args: Vec<String>,
    pub roots: Vec<String>,
    pub init_options: Option<Json>,
    pub settings: Option<Json>,
    pub env: Vec<(String, String)>,
}

/// A grammar, as a plugin's file writes it.
#[derive(Debug)]
pub enum FileGrammar {
    BuiltIn { built_in: String },
    Library { library: String, symbol: Option<String>, highlights: String },
    /// A language deliberately without one.
    Without,
}

/// One language, as a plugin's file writes it.
#[derive(Debug)]
pub struct FileLang {
    pub lsp_id: Option<String>,
    pub extensions: Option<Vec<String>>,
    pub filenames: Option<Vec<String>>,
    pub shebangs: Option<Vec<String>>,
    pub line_comment: Option<String>,
    /// The two halves, as a pair.
    pub block_comment: Option<Vec<String>>,
    /// Pairs, written as the two characters together.
    pub brackets: Option<Vec<String>>,
    pub servers: Option<Vec<FileServer>>,
    pub grammar: Option<FileGrammar>,
}

/// The short name of a server: the one it was given, or else its command, in
/// small letters.
pub open spec fn short_name(s: FileServer) -> Seq<char> {
    match s.name {
        Some(name) => if trimmed(name@).len() > 0 {
            lowercased(trimmed(name@))
        } else {
            lowercased(s.command@)
        },
        None => lowercased(s.command@),
    }
}

impl FileServer {
    /// The half of its id after the slash.
    pub fn plugin_name(&self) -> (s: String)
        ensures
            s@ == short_name(*self),
    {
        if let Some(name) = &self.name {
            let t = trim(&chars_of(name.as_str()));
            if t.len() > 0 {
                return lowercase(text_of(&t).as_str());
            }
        }
        lowercase(self.command.as_str())
    }
}

/// What a server is known by.
pub open spec fn server_id(plugin: Seq<char>, s: FileServer) -> Seq<char> {
    plugin + "/"@ + short_name(s)
}

/// Whether a server is to be in the table: it has a command, and is not
/// switched off.
pub open spec fn is_wanted(plugin: Seq<char>, s: FileServer, off: Seq<Seq<char>>) -> bool {
    trimmed(s.command@).len() > 0 && !off.contains(server_id(plugin, s))
}

/// A server as it stands in the table. One that names nothing that marks the top
/// of a project has a repository mark it.
pub open spec fn recipe(plugin: Seq<char>, s: FileServer) -> Recipe {
    Recipe {
        id: server_id(plugin, s),
        name: short_name(s),
        command: s.command@,
        args: texts(s.args@),
        roots: if s.roots@.len() == 0 { seq![".git"@] } else { texts(s.roots@) },
        init_options: maybe_json(s.init_options),
        settings: maybe_json(s.settings),
        env: pairs(s.env@),
    }
}

/// The servers among the first `n` that are to be in the table.
pub open spec fn recipes(
    plugin: Seq<char>,
    ss: Seq<FileServer>,
    off: Seq<Seq<char>>,
    n: int,
) -> Seq<Recipe>
    decreases n,
{
    if n <= 0 {
        Seq::empty()
    } else if is_wanted(plugin, ss[n - 1], off) {
        recipes(plugin, ss, off, n - 1).push(recipe(plugin, ss[n - 1]))
    } else {
        recipes(plugin, ss, off, n - 1)
    }
}

/// Without the dots at the front.
pub open spec fn undotted(s: Seq<char>) -> Seq<char>
    decreases s.len(),
{
    if s.len() > 0 && s[0] == '.' { undotted(s.skip(1)) } else { s }
}

/// Extensions without the dot that a person writes in front, in small letters.
pub open spec fn bare_extensions(es: Seq<Seq<char>>) -> Seq<Seq<char>> {
    es.map_values(|e: Seq<char>| lowercased(undotted(e)))
}

/// The pairs among the first `n` texts: the first two characters of those that
/// have two.
pub open spec fn bracket_pairs(ts: Seq<Seq<char>>, n: int) -> Seq<(char, char)>
    decreases n,
{
    if n <= 0 {
        Seq::empty()
    } else if ts[n - 1].len() >= 2 {
        bracket_pairs(ts, n - 1).push((ts[n - 1][0], ts[n - 1][1]))
    } else {
        bracket_pairs(ts, n - 1)
    }
}

/// Whether a grammar comes with the editor.
pub open spec fn comes_along(name: Seq<char>) -> bool {
    ||| name == "bash"@
    ||| name == "c"@
    ||| name == "c-sharp"@
    ||| name == "css"@
    ||| name == "go"@
    ||| name == "html"@
    ||| name == "java"@
    ||| name == "javascript"@
    ||| name == "json"@
    ||| name == "markdown"@
    ||| name == "python"@
    ||| name == "rust"@
    ||| name == "toml"@
    ||| name == "typescript"@
    ||| name == "tsx"@
    ||| name == "yaml"@
}

/// The name of a language as part of a symbol.
pub open spec fn as_symbol(name: Seq<char>) -> Seq<char> {
    name.map_values(|c: char| if c == '-' || c == '.' { '_' } else { c })
}

/// The grammar that a file says a language has. One that does not come along
/// leaves it as it is.
pub open spec fn grammar_said(
    was: Option<Source>,
    name: Seq<char>,
    g: FileGrammar,
    home: Option<Seq<char>>,
) -> Option<Source> {
    match g {
        FileGrammar::BuiltIn { built_in } => if comes_along(built_in@) {
            Some(Source::BuiltIn(built_in@))
        } else {
            was
        },
        FileGrammar::Library { library, symbol, highlights } => Some(
            Source::Library(
                expanded(library@, home),
                match symbol {
                    Some(s) => s@,
                    None => "tree_sitter_"@ + as_symbol(name),
                },
                expanded(highlights@, home),
            ),
        ),
        FileGrammar::Without => None,
    }
}

/// What is wrong with the grammar that a file says a language has.
pub open spec fn grammar_trouble(name: Seq<char>, g: Option<FileGrammar>) -> Option<Seq<char>> {
    match g {
        Some(FileGrammar::BuiltIn { built_in }) => if comes_along(built_in@) {
            None
        } else {
            Some(name + ": there is no grammar built in called "@ + debug_text(built_in@))
        },
        _ => None,
    }
}

/// A language with what a plugin says of it written over what was there. What
/// the plugin says nothing of stays.
pub open spec fn said_of(
    t: Tongue,
    plugin: Seq<char>,
    def: FileLang,
    off: Seq<Seq<char>>,
    home: Option<Seq<char>>,
) -> Tongue {
    Tongue {
        id: t.id,
        name: t.name,
        lsp_id: match def.lsp_id {
            Some(s) => s@,
            None => t.lsp_id,
        },
        extensions: match def.extensions {
            Some(v) => bare_extensions(texts(v@)),
            None => t.extensions,
        },
        filenames: match def.filenames {
            Some(v) => texts(v@),
            None => t.filenames,
        },
        shebangs: match def.shebangs {
            Some(v) => texts(v@),
            None => t.shebangs,
        },
        line_comment: match def.line_comment {
            Some(s) => if s@.len() == 0 { None } else { Some(s@) },
            None => t.line_comment,
        },
        block_comment: match def.block_comment {
            Some(v) => if v@.len() == 2 { Some((v@[0]@, v@[1]@)) } else { None },
            None => t.block_comment,
        },
        brackets: match def.brackets {
            Some(v) => bracket_pairs(texts(v@), v@.len() as int),
            None => t.brackets,
        },
        servers: match def.servers {
            Some(v) => recipes(plugin, v@, off, v@.len() as int),
            None => t.servers,
        },
        provided: true,
        grammar: match def.grammar {
            Some(g) => grammar_said(t.grammar, t.name, g, home),
            None => t.grammar,
        },
    }
}

fn bare_extension(e: &str) -> (s: String)
    ensures
        s@ == lowercased(undotted(e@)),
{
    let v = chars_of(e);
    let mut at: usize = 0;
    assert(v@.skip(0) =~= v@);
    while at < v.len() && v[at] == '.'
        invariant
            at <= v@.len(),
            undotted(v@) == undotted(v@.skip(at as int)),
        decreases v@.len() - at,
    {
        assert(v@.skip(at as int).skip(1) =~= v@.skip(at + 1));
        at = at + 1;
    }
    let rest = piece(&v, at, v.len());
    assert(rest@ =~= v@.skip(at as int));
    lowercase(text_of(&rest).as_str())
}

fn make_bare(es: &Vec<String>) -> (v: Vec<String>)
    ensures
        texts(v@) == bare_extensions(texts(es@)),
{
    let ghost want = bare_extensions(texts(es@));
    let mut v: Vec<String> = Vec::new();
    let mut i: usize = 0;
    assert(texts(v@) =~= want.take(0));
    while i < es.len()
        invariant
            i <= es@.len(),
            want == bare_extensions(texts(es@)),
            texts(v@) == want.take(i as int),
        decreases es@.len() - i,
    {
        let ghost had = v@;
        let one = bare_extension(es[i].as_str());
        let ghost is = one@;
        v.push(one);
        assert(texts(v@) =~= texts(had).push(is));
        assert(want.take(i + 1) =~= want.take(i as int).push(want[i as int]));
        i = i + 1;
    }
    assert(want.take(i as int) =~= want);
    v
}

fn read_brackets(ts: &Vec<String>) -> (v: Vec<(char, char)>)
    ensures
        v@ == bracket_pairs(texts(ts@), ts@.len() as int),
{
    let ghost all = texts(ts@);
    let mut v: Vec<(char, char)> = Vec::new();
    let mut n: usize = 0;
    while n < ts.len()
        invariant
            n <= ts@.len(),
            all == texts(ts@),
            v@ == bracket_pairs(all, n as int),
        decreases ts@.len() - n,
    {
        assert(all[n as int] == ts@[n as int]@);
        let cs = chars_of(ts[n].as_str());
        if cs.len() >= 2 {
            v.push((cs[0], cs[1]));
        }
        n = n + 1;
    }
    v
}

fn copy_json(j: &Option<Json>) -> (r: Option<Json>)
    ensures
        maybe_json(r) == maybe_json(*j),
{
    match j {
        Some(j) => Some(j.clone()),
        None => None,
    }
}

fn id_of_server(plugin: &str, s: &FileServer) -> (r: String)
    ensures
        r@ == server_id(plugin@, *s),
{
    let mut r = plugin.to_owned();
    r.append("/");
    r.append(s.plugin_name().as_str());
    r
}

fn make_recipe(plugin: &str, s: &FileServer) -> (c: Config)
    ensures
        c@ == recipe(plugin@, *s),
{
    let roots = if s.roots.len() == 0 {
        let v: Vec<String> = vec![".git".to_owned()];
        assert(texts(v@) =~= seq![".git"@]);
        v
    } else {
        copy_texts(&s.roots)
    };
    let c = Config {
        id: id_of_server(plugin, s),
        name: s.plugin_name(),
        command: s.command.clone(),
        args: copy_texts(&s.args),
        roots,
        init_options: copy_json(&s.init_options),
        settings: copy_json(&s.settings),
        env: crate::launch::copy_pairs(&s.env),
    };
    assert(c@ =~= recipe(plugin@, *s));
    c
}

fn make_recipes(plugin: &str, ss: &Vec<FileServer>, off: &Vec<String>) -> (v: Vec<Config>)
    ensures
        views(v@) == recipes(plugin@, ss@, texts(off@), ss@.len() as int),
{
    let ghost offs = texts(off@);
    let mut v: Vec<Config> = Vec::new();
    let mut n: usize = 0;
    assert(views(v@) =~= recipes(plugin@, ss@, offs, 0));
    while n < ss.len()
        invariant
            n <= ss@.len(),
            offs == texts(off@),
            views(v@) == recipes(plugin@, ss@, offs, n as int),
        decreases ss@.len() - n,
    {
        let command = trim(&chars_of(ss[n].command.as_str()));
        let id = id_of_server(plugin, &ss[n]);
        if command.len() > 0 && !is_one_of(off, id.as_str()) {
            let ghost had = v@;
            let one = make_recipe(plugin, &ss[n]);
            let ghost is = one@;
            v.push(one);
            assert(views(v@) =~= views(had).push(is));
        }
        n = n + 1;
    }
    v
}

/// Whether a grammar comes with the editor.
pub fn built_in_grammar(name: &str) -> (yes: bool)
    ensures
        yes == comes_along(name@),
{
    same(name, "bash") || same(name, "c") || same(name, "c-sharp") || same(name, "css") || same(
        name,
        "go",
    ) || same(name, "html") || same(name, "java") || same(name, "javascript") || same(name, "json")
        || same(name, "markdown") || same(name, "python") || same(name, "rust") || same(name, "toml")
        || same(name, "typescript") || same(name, "tsx") || same(name, "yaml")
}

fn symbol_for(name: &str) -> (s: String)
    ensures
        s@ == "tree_sitter_"@ + as_symbol(name@),
{
    let v = chars_of(name);
    let ghost want = as_symbol(name@);
    let mut s = "tree_sitter_".to_owned();
    let mut i: usize = 0;
    assert(s@ =~= "tree_sitter_"@ + want.take(0));
    while i < v.len()
        invariant
            i <= v@.len(),
            v@ == name@,
            want == as_symbol(name@),
            s@ == "tree_sitter_"@ + want.take(i as int),
        decreases v@.len() - i,
    {
        let c = if v[i] == '-' || v[i] == '.' {
            '_'
        } else {
            v[i]
        };
        s.push(c);
        assert(want.take(i + 1) =~= want.take(i as int).push(want[i as int]));
        assert(s@ =~= "tree_sitter_"@ + want.take(i + 1));
        i = i + 1;
    }
    assert(want.take(i as int) =~= want);
    s
}

impl Lang {
    fn take_grammar(&mut self, g: &FileGrammar, home: &Option<String>)
        ensures
            final(self)@ == (Tongue {
                grammar: grammar_said(
                    old(self)@.grammar,
                    old(self)@.name,
                    *g,
                    maybe_text(*home),
                ),
                ..old(self)@
            }),
    {
        let ghost was = self@;
        match g {
            FileGrammar::BuiltIn { built_in } => {
                if built_in_grammar(built_in.as_str()) {
                    self.grammar = Some(GrammarSource::BuiltIn(built_in.clone()));
                }
            },
            FileGrammar::Library { library, symbol, highlights } => {
                let symbol = match symbol {
                    Some(s) => s.clone(),
                    None => symbol_for(self.name.as_str()),
                };
                self.grammar = Some(
                    GrammarSource::Library {
                        path: expand(library.as_str(), home),
                        symbol,
                        highlights: expand(highlights.as_str(), home),
                    },
                );
            },
            FileGrammar::Without => {
                self.grammar = None;
            },
        }
        assert(self@ =~= (Tongue {
            grammar: grammar_said(was.grammar, was.name, *g, maybe_text(*home)),
            ..was
        }));
    }

    /// Write what a plugin says of a language over what was there. `off` holds
    /// the servers that are switched off.
    pub fn apply(
        &mut self,
        plugin: &str,
        def: &FileLang,
        off: &Vec<String>,
        home: &Option<String>,
    ) -> (trouble: Option<String>)
        ensures
            final(self)@ == said_of(
                old(self)@,
                plugin@,
                *def,
                texts(off@),
                maybe_text(*home),
            ),
            maybe_text(trouble) == grammar_trouble(old(self)@.name, def.grammar),
    {
        let ghost was = self@;
        self.provided = true;
        if let Some(v) = &def.lsp_id {
            self.lsp_id = v.clone();
        }
        if let Some(v) = &def.extensions {
            self.extensions = make_bare(v);
        }
        if let Some(v) = &def.filenames {
            self.filenames = copy_texts(v);
        }
        if let Some(v) = &def.shebangs {
            self.shebangs = copy_texts(v);
        }
        if let Some(v) = &def.line_comment {
            let cs = chars_of(v.as_str());
            self.line_comment = if cs.len() == 0 {
                None
            } else {
                Some(v.clone())
            };
        }
        if let Some(v) = &def.block_comment {
            self.block_comment = if v.len() == 2 {
                Some((v[0].clone(), v[1].clone()))
            } else {
                None
            };
        }
        if let Some(v) = &def.brackets {
            self.brackets = read_brackets(v);
        }
        if let Some(v) = &def.servers {
            self.servers = make_recipes(plugin, v, off);
        }
        let mut trouble: Option<String> = None;
        if let Some(g) = &def.grammar {
            self.take_grammar(g, home);
            if let FileGrammar::BuiltIn { built_in } = g {
                if !built_in_grammar(built_in.as_str()) {
                    let mut why = self.name.clone();
                    why.append(": there is no grammar built in called ");
                    why.append(debugged(built_in.as_str()).as_str());
                    trouble = Some(why);
                }
            }
        }
        assert(self@ =~= said_of(was, plugin@, *def, texts(off@), maybe_text(*home)));
        trouble
    }
}

// ---------------------------------------------------------------------------
// Every language
// ---------------------------------------------------------------------------

/// A plugin, as far as languages go.
#[derive(Debug)]
pub struct Plugin {
    pub id: String,
    /// Whether it is switched on.
    pub on: bool,
    /// What it says of each language, by its name.
    pub languages: Vec<(String, FileLang)>,
}

/// What is said of languages altogether.
#[derive(Debug)]
pub struct Said {
    pub plugins: Vec<Plugin>,
    /// The servers that are switched off.
    pub off: Vec<String>,
    /// What is wrong with the plugins.
    pub problems: Vec<String>,
    pub home: Option<String>,
}

/// Every language there is.
#[derive(Debug)]
pub struct Languages {
    pub langs: Vec<Lang>,
    /// What is worth complaining of, once.
    pub problems: Vec<String>,
}

/// Every language there is.
#[verifier::ext_equal]
pub ghost struct Tongues {
    pub langs: Seq<Tongue>,
    pub problems: Seq<Seq<char>>,
}

impl View for Languages {
    type V = Tongues;

    open spec fn view(&self) -> Tongues {
        Tongues { langs: views(self.langs@), problems: texts(self.problems@) }
    }
}

/// Every language there is, and the names that ids were handed out for, which
/// only grow.
#[derive(Debug)]
pub struct Registry {
    pub names: Vec<String>,
    pub languages: Languages,
}

/// A name as languages are known by.
pub open spec fn plain_lang_name(name: Seq<char>) -> Seq<char> {
    lowercased(trimmed(name))
}

/// Names with one more, where it is one and is not there yet.
pub open spec fn with_lang_name(names: Seq<Seq<char>>, name: Seq<char>) -> Seq<Seq<char>> {
    let n = plain_lang_name(name);
    if n.len() > 0 && !names.contains(n) { names.push(n) } else { names }
}

/// Names with those of the first `n` languages of a plugin.
pub open spec fn with_plugin_names(
    names: Seq<Seq<char>>,
    ls: Seq<(String, FileLang)>,
    n: int,
) -> Seq<Seq<char>>
    decreases n,
{
    if n <= 0 {
        names
    } else {
        with_lang_name(with_plugin_names(names, ls, n - 1), ls[n - 1].0@)
    }
}

/// Names with those of the languages of the first `n` plugins, on or off.
pub open spec fn with_all_names(
    names: Seq<Seq<char>>,
    ps: Seq<Plugin>,
    n: int,
) -> Seq<Seq<char>>
    decreases n,
{
    if n <= 0 {
        names
    } else {
        with_plugin_names(
            with_all_names(names, ps, n - 1),
            ps[n - 1].languages@,
            ps[n - 1].languages@.len() as int,
        )
    }
}

/// The names that ids are handed out for. Text comes first.
pub open spec fn grown(names: Seq<Seq<char>>, ps: Seq<Plugin>) -> Seq<Seq<char>> {
    with_all_names(if names.len() == 0 { seq!["text"@] } else { names }, ps, ps.len() as int)
}

/// A language for each of the names, with nothing said of any.
pub open spec fn all_unsaid(names: Seq<Seq<char>>) -> Seq<Tongue> {
    Seq::new(names.len(), |i: int| unsaid(LangId(i as u16), names[i]))
}

/// Plain text, which is there whether or not a plugin says so.
pub open spec fn plain_text(t: Tongue) -> Tongue {
    Tongue {
        lsp_id: "plaintext"@,
        extensions: seq!["txt"@, "text"@],
        brackets: usual_brackets(),
        provided: true,
        ..t
    }
}

/// The place of the language of a name, or the end.
pub open spec fn lang_place(ts: Seq<Tongue>, name: Seq<char>, i: int) -> int
    decreases ts.len() - i,
{
    if 0 <= i < ts.len() && ts[i].name != name { lang_place(ts, name, i + 1) } else { i }
}

/// Languages with what a plugin says of one of them.
pub open spec fn with_def(
    l: Tongues,
    plugin: Seq<char>,
    name: Seq<char>,
    def: FileLang,
    off: Seq<Seq<char>>,
    home: Option<Seq<char>>,
) -> Tongues {
    let at = lang_place(l.langs, plain_lang_name(name), 0);
    if at < l.langs.len() {
        Tongues {
            langs: l.langs.update(at, said_of(l.langs[at], plugin, def, off, home)),
            problems: match grammar_trouble(l.langs[at].name, def.grammar) {
                Some(why) => l.problems.push(why),
                None => l.problems,
            },
        }
    } else {
        l
    }
}

/// Languages with what a plugin says of the first `n` that it names.
pub open spec fn with_defs(
    l: Tongues,
    plugin: Seq<char>,
    ds: Seq<(String, FileLang)>,
    off: Seq<Seq<char>>,
    home: Option<Seq<char>>,
    n: int,
) -> Tongues
    decreases n,
{
    if n <= 0 {
        l
    } else {
        with_def(
            with_defs(l, plugin, ds, off, home, n - 1),
            plugin,
            ds[n - 1].0@,
            ds[n - 1].1,
            off,
            home,
        )
    }
}

/// Languages with what the first `n` plugins say, those of them that are on.
pub open spec fn with_plugins(
    l: Tongues,
    ps: Seq<Plugin>,
    off: Seq<Seq<char>>,
    home: Option<Seq<char>>,
    n: int,
) -> Tongues
    decreases n,
{
    if n <= 0 {
        l
    } else {
        let less = with_plugins(l, ps, off, home, n - 1);
        let p = ps[n - 1];
        if p.on {
            with_defs(less, p.id@, p.languages@, off, home, p.languages@.len() as int)
        } else {
            less
        }
    }
}

/// The languages that plugins give, with an id for each of the names.
pub open spec fn given(names: Seq<Seq<char>>, said: Said) -> Tongues {
    let all = all_unsaid(names);
    let base = Tongues {
        langs: all.update(0, plain_text(all[0])),
        problems: texts(said.problems@),
    };
    with_plugins(
        base,
        said.plugins@,
        texts(said.off@),
        maybe_text(said.home),
        said.plugins@.len() as int,
    )
}

proof fn lemma_with_lang_name(names: Seq<Seq<char>>, name: Seq<char>)
    ensures
        names.is_prefix_of(with_lang_name(names, name)),
{
    assert(names =~= with_lang_name(names, name).take(names.len() as int));
}

proof fn lemma_prefix(a: Seq<Seq<char>>, b: Seq<Seq<char>>, c: Seq<Seq<char>>)
    requires
        a.is_prefix_of(b),
        b.is_prefix_of(c),
    ensures
        a.is_prefix_of(c),
{
    assert(a =~= c.subrange(0, a.len() as int)) by {
        assert forall|i: int| 0 <= i < a.len() implies a[i] == c[i] by {
            assert(a[i] == b.subrange(0, a.len() as int)[i]);
            assert(b[i] == c.subrange(0, b.len() as int)[i]);
        }
    }
}

proof fn lemma_with_plugin_names(names: Seq<Seq<char>>, ls: Seq<(String, FileLang)>, n: int)
    ensures
        names.is_prefix_of(with_plugin_names(names, ls, n)),
    decreases n,
{
    if n > 0 {
        let less = with_plugin_names(names, ls, n - 1);
        lemma_with_plugin_names(names, ls, n - 1);
        lemma_with_lang_name(less, ls[n - 1].0@);
        lemma_prefix(names, less, with_plugin_names(names, ls, n));
    } else {
        assert(names =~= names.subrange(0, names.len() as int));
    }
}

proof fn lemma_with_all_names(names: Seq<Seq<char>>, ps: Seq<Plugin>, n: int)
    ensures
        names.is_prefix_of(with_all_names(names, ps, n)),
    decreases n,
{
    if n > 0 {
        let less = with_all_names(names, ps, n - 1);
        lemma_with_all_names(names, ps, n - 1);
        lemma_with_plugin_names(
            less,
            ps[n - 1].languages@,
            ps[n - 1].languages@.len() as int,
        );
        lemma_prefix(names, less, with_all_names(names, ps, n));
    } else {
        assert(names =~= names.subrange(0, names.len() as int));
    }
}

/// A language keeps its id: whatever plugins are turned on or off, the names
/// that ids were handed out for stay where they are, and new ones come behind
/// them.
pub proof fn law_a_language_keeps_its_id(names: Seq<Seq<char>>, ps: Seq<Plugin>, id: int)
    requires
        0 <= id < names.len(),
    ensures
        id < grown(names, ps).len(),
        grown(names, ps)[id] == names[id],
{
    lemma_with_all_names(names, ps, ps.len() as int);
    assert(names[id] == grown(names, ps).subrange(0, names.len() as int)[id]);
}

proof fn lemma_with_defs(
    l: Tongues,
    plugin: Seq<char>,
    ds: Seq<(String, FileLang)>,
    off: Seq<Seq<char>>,
    home: Option<Seq<char>>,
    n: int,
)
    ensures
        with_defs(l, plugin, ds, off, home, n).langs.len() == l.langs.len(),
        forall|i: int|
            0 <= i < l.langs.len() ==> {
                let t = #[trigger] with_defs(l, plugin, ds, off, home, n).langs[i];
                t.id == l.langs[i].id && t.name == l.langs[i].name && (l.langs[i].provided
                    ==> t.provided)
            },
    decreases n,
{
    if n > 0 {
        lemma_with_defs(l, plugin, ds, off, home, n - 1);
        let less = with_defs(l, plugin, ds, off, home, n - 1);
        let at = lang_place(less.langs, plain_lang_name(ds[n - 1].0@), 0);
        lemma_lang_place(less.langs, plain_lang_name(ds[n - 1].0@), 0);
        assert forall|i: int| 0 <= i < l.langs.len() implies {
            let t = #[trigger] with_defs(l, plugin, ds, off, home, n).langs[i];
            t.id == l.langs[i].id && t.name == l.langs[i].name && (l.langs[i].provided
                ==> t.provided)
        } by {
            assert(less.langs[i].id == l.langs[i].id);
        }
    }
}

proof fn lemma_lang_place(ts: Seq<Tongue>, name: Seq<char>, i: int)
    requires
        0 <= i <= ts.len(),
    ensures
        i <= lang_place(ts, name, i) <= ts.len(),
    decreases ts.len() - i,
{
    if i < ts.len() && ts[i].name != name {
        lemma_lang_place(ts, name, i + 1);
    }
}

proof fn lemma_with_plugins(
    l: Tongues,
    ps: Seq<Plugin>,
    off: Seq<Seq<char>>,
    home: Option<Seq<char>>,
    n: int,
)
    ensures
        with_plugins(l, ps, off, home, n).langs.len() == l.langs.len(),
        forall|i: int|
            0 <= i < l.langs.len() ==> {
                let t = #[trigger] with_plugins(l, ps, off, home, n).langs[i];
                t.id == l.langs[i].id && t.name == l.langs[i].name && (l.langs[i].provided
                    ==> t.provided)
            },
    decreases n,
{
    if n > 0 {
        lemma_with_plugins(l, ps, off, home, n - 1);
        let less = with_plugins(l, ps, off, home, n - 1);
        let p = ps[n - 1];
        lemma_with_defs(less, p.id@, p.languages@, off, home, p.languages@.len() as int);
        assert forall|i: int| 0 <= i < l.langs.len() implies {
            let t = #[trigger] with_plugins(l, ps, off, home, n).langs[i];
            t.id == l.langs[i].id && t.name == l.langs[i].name && (l.langs[i].provided
                ==> t.provided)
        } by {
            assert(less.langs[i].id == l.langs[i].id);
            if p.on {
                let t = with_defs(
                    less,
                    p.id@,
                    p.languages@,
                    off,
                    home,
                    p.languages@.len() as int,
                ).langs[i];
                assert(t.id == less.langs[i].id);
            }
        }
    }
}

/// Every language stands at its id under its name, whoever is switched on, and
/// plain text is always there.
pub proof fn law_every_name_has_its_language(names: Seq<Seq<char>>, said: Said, i: int)
    requires
        0 <= i < names.len(),
    ensures
        given(names, said).langs.len() == names.len(),
        given(names, said).langs[i].name == names[i],
        given(names, said).langs[i].id == LangId(i as u16),
        given(names, said).langs[0].provided,
{
    let all = all_unsaid(names);
    let base = Tongues {
        langs: all.update(0, plain_text(all[0])),
        problems: texts(said.problems@),
    };
    let off = texts(said.off@);
    let home = maybe_text(said.home);
    let n = said.plugins@.len() as int;
    lemma_with_plugins(base, said.plugins@, off, home, n);
    let t = with_plugins(base, said.plugins@, off, home, n).langs[i];
    assert(t.id == base.langs[i].id);
    let first = with_plugins(base, said.plugins@, off, home, n).langs[0];
    assert(first.id == base.langs[0].id);
}

proof fn lemma_found_lang(ts: Seq<Tongue>, name: Seq<char>, i: int)
    requires
        0 <= i <= ts.len(),
        lang_place(ts, name, i) < ts.len(),
    ensures
        ts[lang_place(ts, name, i)].name == name,
    decreases ts.len() - i,
{
    if i < ts.len() && ts[i].name != name {
        lemma_found_lang(ts, name, i + 1);
    }
}

proof fn lemma_defs_leave(
    l: Tongues,
    plugin: Seq<char>,
    ds: Seq<(String, FileLang)>,
    off: Seq<Seq<char>>,
    home: Option<Seq<char>>,
    n: int,
    i: int,
)
    requires
        0 <= n <= ds.len(),
        0 <= i < l.langs.len(),
        forall|k: int|
            0 <= k < n ==> plain_lang_name((#[trigger] ds[k]).0@) != l.langs[i].name,
    ensures
        with_defs(l, plugin, ds, off, home, n).langs[i] == l.langs[i],
    decreases n,
{
    if n > 0 {
        lemma_defs_leave(l, plugin, ds, off, home, n - 1, i);
        lemma_with_defs(l, plugin, ds, off, home, n - 1);
        let less = with_defs(l, plugin, ds, off, home, n - 1);
        let name = plain_lang_name(ds[n - 1].0@);
        lemma_lang_place(less.langs, name, 0);
        if lang_place(less.langs, name, 0) < less.langs.len() {
            lemma_found_lang(less.langs, name, 0);
        }
    }
}

proof fn lemma_plugins_leave(
    l: Tongues,
    ps: Seq<Plugin>,
    off: Seq<Seq<char>>,
    home: Option<Seq<char>>,
    n: int,
    i: int,
)
    requires
        0 <= n <= ps.len(),
        0 <= i < l.langs.len(),
        forall|j: int, k: int|
            0 <= j < n && ps[j].on && 0 <= k < ps[j].languages@.len() ==> plain_lang_name(
                (#[trigger] ps[j].languages@[k]).0@,
            ) != l.langs[i].name,
    ensures
        with_plugins(l, ps, off, home, n).langs[i] == l.langs[i],
    decreases n,
{
    if n > 0 {
        lemma_plugins_leave(l, ps, off, home, n - 1, i);
        lemma_with_plugins(l, ps, off, home, n - 1);
        let p = ps[n - 1];
        let less = with_plugins(l, ps, off, home, n - 1);
        if p.on {
            assert forall|k: int| 0 <= k < p.languages@.len() implies plain_lang_name(
                (#[trigger] p.languages@[k]).0@,
            ) != less.langs[i].name by {
                assert(ps[n - 1].languages@[k] == p.languages@[k]);
            }
            lemma_defs_leave(less, p.id@, p.languages@, off, home, p.languages@.len() as int, i);
        }
    }
}

/// A language that no plugin that is on speaks of is there by its name and its
/// id and has nothing in it. Plain text is another matter.
pub proof fn law_what_nobody_provides_is_empty(names: Seq<Seq<char>>, said: Said, i: int)
    requires
        0 < i < names.len(),
        forall|j: int, k: int|
            0 <= j < said.plugins@.len() && said.plugins@[j].on && 0 <= k
                < said.plugins@[j].languages@.len() ==> plain_lang_name(
                (#[trigger] said.plugins@[j].languages@[k]).0@,
            ) != names[i],
    ensures
        given(names, said).langs[i] == unsaid(LangId(i as u16), names[i]),
{
    let all = all_unsaid(names);
    let base = Tongues {
        langs: all.update(0, plain_text(all[0])),
        problems: texts(said.problems@),
    };
    assert(base.langs[i] == unsaid(LangId(i as u16), names[i]));
    lemma_plugins_leave(
        base,
        said.plugins@,
        texts(said.off@),
        maybe_text(said.home),
        said.plugins@.len() as int,
        i,
    );
}

/// What a plugin says nothing of stays as the one before it left it.
pub proof fn law_a_plugin_adds_to_a_language(
    t: Tongue,
    plugin: Seq<char>,
    def: FileLang,
    off: Seq<Seq<char>>,
    home: Option<Seq<char>>,
)
    ensures
        ({
            let after = said_of(t, plugin, def, off, home);
            &&& after.id == t.id && after.name == t.name && after.provided
            &&& def.lsp_id is None ==> after.lsp_id == t.lsp_id
            &&& def.extensions is None ==> after.extensions == t.extensions
            &&& def.filenames is None ==> after.filenames == t.filenames
            &&& def.shebangs is None ==> after.shebangs == t.shebangs
            &&& def.line_comment is None ==> after.line_comment == t.line_comment
            &&& def.block_comment is None ==> after.block_comment == t.block_comment
            &&& def.brackets is None ==> after.brackets == t.brackets
            &&& def.servers is None ==> after.servers == t.servers
            &&& def.grammar is None ==> after.grammar == t.grammar
        }),
{
}

fn add_name(names: &mut Vec<String>, name: &str)
    ensures
        texts(final(names)@) == with_lang_name(texts(old(names)@), name@),
{
    let n = lowercase(text_of(&trim(&chars_of(name))).as_str());
    let cs = chars_of(n.as_str());
    if cs.len() > 0 && !is_one_of(names, n.as_str()) {
        let ghost had = names@;
        let ghost is = n@;
        names.push(n);
        assert(texts(names@) =~= texts(had).push(is));
    }
}

fn grow_names(names: &mut Vec<String>, ps: &Vec<Plugin>)
    ensures
        texts(final(names)@) == grown(texts(old(names)@), ps@),
{
    let ghost was = texts(names@);
    if names.len() == 0 {
        names.push("text".to_owned());
        assert(texts(names@) =~= seq!["text"@]);
    }
    let ghost base = texts(names@);
    assert(was.len() == old(names)@.len());
    let mut n: usize = 0;
    while n < ps.len()
        invariant
            n <= ps@.len(),
            texts(names@) == with_all_names(base, ps@, n as int),
        decreases ps@.len() - n,
    {
        let ghost less = texts(names@);
        let mut m: usize = 0;
        while m < ps[n].languages.len()
            invariant
                n < ps@.len(),
                m <= ps@[n as int].languages@.len(),
                texts(names@) == with_plugin_names(less, ps@[n as int].languages@, m as int),
            decreases ps@[n as int].languages@.len() - m,
        {
            add_name(names, ps[n].languages[m].0.as_str());
            m = m + 1;
        }
        n = n + 1;
    }
}

impl Languages {
    fn find(&self, name: &str) -> (at: usize)
        ensures
            at == lang_place(self@.langs, name@, 0),
            at <= self.langs@.len(),
    {
        let ghost ts = self@.langs;
        let mut at: usize = 0;
        while at < self.langs.len() && !same(self.langs[at].name.as_str(), name)
            invariant
                at <= self.langs@.len(),
                ts == self@.langs,
                lang_place(ts, name@, 0) == lang_place(ts, name@, at as int),
            decreases self.langs@.len() - at,
        {
            assert(ts[at as int] == self.langs@[at as int]@);
            at = at + 1;
        }
        if at < self.langs.len() {
            assert(ts[at as int] == self.langs@[at as int]@);
        }
        at
    }

    /// Fold in what a plugin says. A language that is here already is added to.
    pub fn merge(
        &mut self,
        plugin: &str,
        languages: &Vec<(String, FileLang)>,
        off: &Vec<String>,
        home: &Option<String>,
    )
        ensures
            final(self)@ == with_defs(
                old(self)@,
                plugin@,
                languages@,
                texts(off@),
                maybe_text(*home),
                languages@.len() as int,
            ),
    {
        let ghost was = self@;
        let ghost offs = texts(off@);
        let ghost at_home = maybe_text(*home);
        let mut n: usize = 0;
        while n < languages.len()
            invariant
                n <= languages@.len(),
                offs == texts(off@),
                at_home == maybe_text(*home),
                self@ == with_defs(was, plugin@, languages@, offs, at_home, n as int),
            decreases languages@.len() - n,
        {
            let ghost less = self@;
            let said = text_of(&trim(&chars_of(languages[n].0.as_str())));
            let name = lowercase(said.as_str());
            let at = self.find(name.as_str());
            assert(less.langs.len() == self.langs@.len());
            if at < self.langs.len() {
                assert(less.langs[at as int] == self.langs@[at as int]@);
                let trouble = self.langs[at].apply(plugin, &languages[n].1, off, home);
                assert(views(self.langs@) =~= less.langs.update(
                    at as int,
                    said_of(less.langs[at as int], plugin@, languages@[n as int].1, offs, at_home),
                ));
                if let Some(why) = trouble {
                    let ghost had = self.problems@;
                    let ghost is = why@;
                    self.problems.push(why);
                    assert(texts(self.problems@) =~= texts(had).push(is));
                }
            }
            assert(self@ =~= with_def(
                less,
                plugin@,
                languages@[n as int].0@,
                languages@[n as int].1,
                offs,
                at_home,
            ));
            n = n + 1;
        }
    }

    /// Build the table out of every plugin that is switched on. Ids are handed
    /// out first, for the names that any plugin mentions, on or off.
    fn load(names: &Vec<String>, said: &Said) -> (l: Languages)
        requires
            names@.len() > 0,
        ensures
            l@ == given(texts(names@), *said),
    {
        let ghost ns = texts(names@);
        let mut langs: Vec<Lang> = Vec::new();
        let mut i: usize = 0;
        assert(views(langs@) =~= all_unsaid(ns).take(0));
        while i < names.len()
            invariant
                i <= names@.len(),
                ns == texts(names@),
                views(langs@) == all_unsaid(ns).take(i as int),
            decreases names@.len() - i,
        {
            let ghost had = langs@;
            let one = blank(LangId(#[verifier::truncate]
            (i as u16)), names[i].as_str());
            let ghost is = one@;
            langs.push(one);
            assert(views(langs@) =~= views(had).push(is));
            assert(all_unsaid(ns)[i as int] == is);
            assert(all_unsaid(ns).take(i + 1) =~= all_unsaid(ns).take(i as int).push(is));
            i = i + 1;
        }
        assert(all_unsaid(ns).take(i as int) =~= all_unsaid(ns));
        let ghost all = views(langs@);
        assert(langs@.len() == all.len());
        langs[0].be_plain_text();
        assert(views(langs@) =~= all.update(0, plain_text(all[0])));
        let mut l = Languages { langs, problems: copy_texts(&said.problems) };
        let ghost base = l@;
        let mut n: usize = 0;
        while n < said.plugins.len()
            invariant
                n <= said.plugins@.len(),
                l@ == with_plugins(
                    base,
                    said.plugins@,
                    texts(said.off@),
                    maybe_text(said.home),
                    n as int,
                ),
            decreases said.plugins@.len() - n,
        {
            if said.plugins[n].on {
                l.merge(
                    said.plugins[n].id.as_str(),
                    &said.plugins[n].languages,
                    &said.off,
                    &said.home,
                );
            }
            n = n + 1;
        }
        l
    }
}

impl Lang {
    fn be_plain_text(&mut self)
        ensures
            final(self)@ == plain_text(old(self)@),
    {
        let ghost was = self@;
        self.lsp_id = "plaintext".to_owned();
        self.extensions = vec!["txt".to_owned(), "text".to_owned()];
        self.brackets = default_brackets();
        self.provided = true;
        assert(texts(self.extensions@) =~= seq!["txt"@, "text"@]);
        assert(self@ =~= plain_text(was));
    }
}

/// Build the registry. Done once, before anything asks for a language.
pub fn init(said: &Said) -> (r: Registry)
    ensures
        texts(r.names@) == grown(Seq::empty(), said.plugins@),
        r.languages@ == given(texts(r.names@), *said),
{
    let mut names: Vec<String> = Vec::new();
    assert(texts(names@) =~= Seq::<Seq<char>>::empty());
    grow_names(&mut names, &said.plugins);
    proof {
        lemma_with_all_names(seq!["text"@], said.plugins@, said.plugins@.len() as int);
        assert(texts(names@).len() >= 1);
    }
    let languages = Languages::load(&names, said);
    Registry { names, languages }
}

/// Build the registry afresh, for after a plugin has been turned on or off. The
/// ids that were handed out stay.
pub fn rebuild(registry: &mut Registry, said: &Said)
    ensures
        texts(final(registry).names@) == grown(texts(old(registry).names@), said.plugins@),
        final(registry).languages@ == given(texts(final(registry).names@), *said),
{
    let ghost was = texts(registry.names@);
    grow_names(&mut registry.names, &said.plugins);
    proof {
        let base = if was.len() == 0 { seq!["text"@] } else { was };
        lemma_with_all_names(base, said.plugins@, said.plugins@.len() as int);
        assert(texts(registry.names@).len() >= 1);
    }
    registry.languages = Languages::load(&registry.names, said);
}

/// Every language there is.
pub fn all(registry: &Registry) -> (l: &Languages)
    ensures
        *l == registry.languages,
{
    &registry.languages
}

/// One language by id. One that is not there is plain text.
pub fn get(languages: &Languages, id: LangId) -> (l: &Lang)
    requires
        languages.langs@.len() > 0,
    ensures
        l@ == if id.0 < languages@.langs.len() {
            languages@.langs[id.0 as int]
        } else {
            languages@.langs[0]
        },
{
    if (id.0 as usize) < languages.langs.len() {
        &languages.langs[id.0 as usize]
    } else {
        &languages.langs[0]
    }
}

// ---------------------------------------------------------------------------
// Which language it is
// ---------------------------------------------------------------------------

/// Whether a text is among others, whatever the case of those.
pub open spec fn among_low(ts: Seq<Seq<char>>, low: Seq<char>) -> bool {
    exists|i: int| 0 <= i < ts.len() && lowercased(#[trigger] ts[i]) == low
}

/// The first language from `i` on that has a whole file name.
pub open spec fn by_whole_name(ts: Seq<Tongue>, name: Seq<char>, i: int) -> Option<LangId>
    decreases ts.len() - i,
{
    if i < 0 || i >= ts.len() {
        None
    } else if among_low(ts[i].filenames, name) {
        Some(ts[i].id)
    } else {
        by_whole_name(ts, name, i + 1)
    }
}

/// Whether a file name has an extension: something, a dot, and the extension.
pub open spec fn has_extension(name: Seq<char>, ext: Seq<char>) -> bool {
    ext.is_suffix_of(name) && name.len() > ext.len() && name[name.len() - ext.len() - 1] == '.'
}

/// The longest extension that a name has, among what was found before and the
/// first `n` of a language. Of two as long, the first.
pub open spec fn longer_extension(
    best: Option<(nat, LangId)>,
    es: Seq<Seq<char>>,
    id: LangId,
    name: Seq<char>,
    n: int,
) -> Option<(nat, LangId)>
    decreases n,
{
    if n <= 0 {
        best
    } else {
        let less = longer_extension(best, es, id, name, n - 1);
        let e = es[n - 1];
        let longer = match less {
            Some((len, _)) => e.len() > len,
            None => true,
        };
        if has_extension(name, e) && longer { Some((e.len(), id)) } else { less }
    }
}

/// The longest extension that a name has, among the first `n` languages.
pub open spec fn longest_extension(ts: Seq<Tongue>, name: Seq<char>, n: int) -> Option<
    (nat, LangId),
>
    decreases n,
{
    if n <= 0 {
        None
    } else {
        let t = ts[n - 1];
        longer_extension(
            longest_extension(ts, name, n - 1),
            t.extensions,
            t.id,
            name,
            t.extensions.len() as int,
        )
    }
}

/// A text with its spaces made slashes.
pub open spec fn slashed(s: Seq<char>) -> Seq<char> {
    s.map_values(|c: char| if c == ' ' { '/' } else { c })
}

/// The last of the first `n` pieces that is a word other than `env`.
pub open spec fn last_word(ps: Seq<Seq<char>>, n: int) -> Seq<char>
    decreases n,
{
    if n <= 0 {
        Seq::empty()
    } else if ps[n - 1].len() > 0 && ps[n - 1] != "env"@ {
        ps[n - 1]
    } else {
        last_word(ps, n - 1)
    }
}

/// The program that the first line of a script names.
pub open spec fn program_named(line: Seq<char>) -> Option<Seq<char>> {
    match stripped(trim_back(line), "#!"@) {
        Some(rest) => {
            let ps = cut(slashed(rest), '/');
            Some(last_word(ps, ps.len() as int))
        },
        None => None,
    }
}

/// The first language from `i` on that a program means.
pub open spec fn by_program(ts: Seq<Tongue>, word: Seq<char>, i: int) -> Option<LangId>
    decreases ts.len() - i,
{
    if i < 0 || i >= ts.len() {
        None
    } else if ts[i].shebangs.contains(word) {
        Some(ts[i].id)
    } else {
        by_program(ts, word, i + 1)
    }
}

/// The first line of a text, with what ends it.
pub open spec fn first_line(t: Seq<char>) -> Seq<char> {
    t.subrange(0, start_of_line(t, 1))
}

/// A file's name in small letters.
pub open spec fn low_name(path: Seq<char>) -> Seq<char> {
    match last_name(path) {
        Some(name) => lowercased(name),
        None => Seq::empty(),
    }
}

/// What language a file is: by its whole name, or else by the longest extension,
/// or else by the program that its first line names.
pub open spec fn detected(ts: Seq<Tongue>, path: Seq<char>, text: Seq<char>) -> LangId {
    let name = low_name(path);
    match by_whole_name(ts, name, 0) {
        Some(id) => id,
        None => match longest_extension(ts, name, ts.len() as int) {
            Some((_, id)) => id,
            None => match program_named(first_line(text)) {
                Some(word) => match by_program(ts, word, 0) {
                    Some(id) => id,
                    None => LangId(0),
                },
                None => LangId(0),
            },
        },
    }
}

fn has_low(ts: &Vec<String>, low: &str) -> (yes: bool)
    ensures
        yes == among_low(texts(ts@), low@),
{
    let ghost all = texts(ts@);
    let mut i: usize = 0;
    while i < ts.len()
        invariant
            i <= ts@.len(),
            all == texts(ts@),
            forall|k: int| 0 <= k < i ==> lowercased(#[trigger] all[k]) != low@,
        decreases ts@.len() - i,
    {
        assert(all[i as int] == ts@[i as int]@);
        let one = lowercase(ts[i].as_str());
        if same(one.as_str(), low) {
            return true;
        }
        i = i + 1;
    }
    false
}

fn bears(name: &Vec<char>, ext: &str) -> (yes: bool)
    ensures
        yes == has_extension(name@, ext@),
{
    let e = chars_of(ext);
    ends(name, ext) && name.len() > e.len() && name[name.len() - e.len() - 1] == '.'
}

fn program_of(line: &str) -> (r: Option<String>)
    ensures
        maybe_text(r) == program_named(line@),
{
    let t = trim_end(&chars_of(line));
    match strip(&t, "#!") {
        Some(rest) => {
            let ghost want = slashed(rest@);
            let mut v: Vec<char> = Vec::new();
            let mut i: usize = 0;
            assert(v@ =~= want.take(0));
            while i < rest.len()
                invariant
                    i <= rest@.len(),
                    want == slashed(rest@),
                    v@ == want.take(i as int),
                decreases rest@.len() - i,
            {
                let c = if rest[i] == ' ' {
                    '/'
                } else {
                    rest[i]
                };
                v.push(c);
                assert(want.take(i + 1) =~= want.take(i as int).push(want[i as int]));
                i = i + 1;
            }
            assert(want.take(i as int) =~= want);
            let pieces = cut_at(&v, '/');
            let ghost ps = deep(pieces@);
            let mut n: usize = pieces.len();
            while n > 0
                invariant
                    n <= pieces@.len(),
                    ps == deep(pieces@),
                    last_word(ps, ps.len() as int) == last_word(ps, n as int),
                    program_named(line@) == Some(last_word(ps, ps.len() as int)),
                decreases n,
            {
                assert(ps[n - 1] == pieces@[n - 1]@);
                let word = text_of(&pieces[n - 1]);
                if pieces[n - 1].len() > 0 && !same(word.as_str(), "env") {
                    return Some(word);
                }
                n = n - 1;
            }
            let none: String = String::new();
            assert(none@ =~= Seq::<char>::empty());
            Some(none)
        },
        None => None,
    }
}

impl Languages {
    fn whole_name(&self, name: &str) -> (r: Option<LangId>)
        ensures
            r == by_whole_name(self@.langs, name@, 0),
    {
        let ghost ts = self@.langs;
        let mut i: usize = 0;
        while i < self.langs.len()
            invariant
                i <= self.langs@.len(),
                ts == self@.langs,
                by_whole_name(ts, name@, 0) == by_whole_name(ts, name@, i as int),
            decreases self.langs@.len() - i,
        {
            assert(ts[i as int] == self.langs@[i as int]@);
            if has_low(&self.langs[i].filenames, name) {
                return Some(self.langs[i].id);
            }
            i = i + 1;
        }
        None
    }

    fn longest(&self, name: &Vec<char>) -> (r: Option<LangId>)
        ensures
            r == match longest_extension(self@.langs, name@, self@.langs.len() as int) {
                Some((_, id)) => Some(id),
                None => None,
            },
    {
        let ghost ts = self@.langs;
        let mut best: Option<(usize, LangId)> = None;
        let mut n: usize = 0;
        while n < self.langs.len()
            invariant
                n <= self.langs@.len(),
                ts == self@.langs,
                found(best) == longest_extension(ts, name@, n as int),
            decreases self.langs@.len() - n,
        {
            assert(ts[n as int] == self.langs@[n as int]@);
            let ghost less = found(best);
            let ghost es = ts[n as int].extensions;
            let ghost id = ts[n as int].id;
            let mut m: usize = 0;
            while m < self.langs[n].extensions.len()
                invariant
                    n < self.langs@.len(),
                    m <= self.langs@[n as int].extensions@.len(),
                    es == texts(self.langs@[n as int].extensions@),
                    id == self.langs@[n as int].id,
                    found(best) == longer_extension(less, es, id, name@, m as int),
                decreases self.langs@[n as int].extensions@.len() - m,
            {
                assert(es[m as int] == self.langs@[n as int].extensions@[m as int]@);
                let len = chars_of(self.langs[n].extensions[m].as_str()).len();
                let longer = match best {
                    Some((had, _)) => len > had,
                    None => true,
                };
                if bears(name, self.langs[n].extensions[m].as_str()) && longer {
                    best = Some((len, self.langs[n].id));
                }
                m = m + 1;
            }
            n = n + 1;
        }
        match best {
            Some((_, id)) => Some(id),
            None => None,
        }
    }

    fn run_by(&self, word: &str) -> (r: Option<LangId>)
        ensures
            r == by_program(self@.langs, word@, 0),
    {
        let ghost ts = self@.langs;
        let mut i: usize = 0;
        while i < self.langs.len()
            invariant
                i <= self.langs@.len(),
                ts == self@.langs,
                by_program(ts, word@, 0) == by_program(ts, word@, i as int),
            decreases self.langs@.len() - i,
        {
            assert(ts[i as int] == self.langs@[i as int]@);
            if is_one_of(&self.langs[i].shebangs, word) {
                return Some(self.langs[i].id);
            }
            i = i + 1;
        }
        None
    }
}

/// What was found, by the length of an extension.
pub open spec fn found(best: Option<(usize, LangId)>) -> Option<(nat, LangId)> {
    match best {
        Some((len, id)) => Some((len as nat, id)),
        None => None,
    }
}

/// What language a file is, from its name and, failing that, its first line.
pub fn detect(languages: &Languages, path: &str, rope: &ropey::Rope) -> (id: LangId)
    ensures
        id == detected(languages@.langs, path@, rope_text(*rope)),
{
    let name: String = match file_name(path) {
        Some(name) => lowercase(text_of(&name).as_str()),
        None => String::new(),
    };
    assert(name@ =~= low_name(path@));
    if let Some(id) = languages.whole_name(name.as_str()) {
        return id;
    }
    if let Some(id) = languages.longest(&chars_of(name.as_str())) {
        return id;
    }
    let ghost t = rope_text(*rope);
    proof {
        crate::rope::lemma_after_lines_bounds(t, 1, 0);
    }
    let end = rope.line_to_char(1);
    let line = slice(rope, 0, end);
    if let Some(word) = program_of(line.as_str()) {
        if let Some(id) = languages.run_by(word.as_str()) {
            return id;
        }
    }
    LangId(0)
}

/// Whether a language answers to a tag in small letters: by its name, by what a
/// server calls it, or by one of its extensions.
pub open spec fn answers_to(t: Tongue, low: Seq<char>) -> bool {
    t.provided && (lowercased(t.name) == low || lowercased(t.lsp_id) == low || among_low(
        t.extensions,
        low,
    ))
}

/// The first language from `i` on that answers to a tag.
pub open spec fn first_answering(ts: Seq<Tongue>, low: Seq<char>, i: int) -> Option<LangId>
    decreases ts.len() - i,
{
    if i < 0 || i >= ts.len() {
        None
    } else if answers_to(ts[i], low) {
        Some(ts[i].id)
    } else {
        first_answering(ts, low, i + 1)
    }
}

/// The language that a tag means. Plain text is not meant by one.
pub open spec fn tagged(ts: Seq<Tongue>, tag: Seq<char>) -> Option<LangId> {
    let low = plain_lang_name(tag);
    if low.len() == 0 {
        None
    } else {
        match first_answering(ts, low, 0) {
            Some(id) => if id == LangId(0) { None } else { Some(id) },
            None => None,
        }
    }
}

/// The language that the tag of a fenced piece of code means.
pub fn by_tag(languages: &Languages, tag: &str) -> (r: Option<LangId>)
    ensures
        r == tagged(languages@.langs, tag@),
{
    let wanted = lowercase(text_of(&trim(&chars_of(tag))).as_str());
    if chars_of(wanted.as_str()).len() == 0 {
        return None;
    }
    let ghost ts = languages@.langs;
    let mut i: usize = 0;
    while i < languages.langs.len()
        invariant
            i <= languages.langs@.len(),
            ts == languages@.langs,
            wanted@ == plain_lang_name(tag@),
            wanted@.len() > 0,
            first_answering(ts, wanted@, 0) == first_answering(ts, wanted@, i as int),
        decreases languages.langs@.len() - i,
    {
        assert(ts[i as int] == languages.langs@[i as int]@);
        let l = &languages.langs[i];
        if l.is_available() && (same(lowercase(l.name.as_str()).as_str(), wanted.as_str()) || same(
            lowercase(l.lsp_id.as_str()).as_str(),
            wanted.as_str(),
        ) || has_low(&l.extensions, wanted.as_str())) {
            return if l.id == LangId(0) {
                None
            } else {
                Some(l.id)
            };
        }
        i = i + 1;
    }
    None
}

/// The first language from `i` on that is there and has a name.
pub open spec fn first_named(ts: Seq<Tongue>, low: Seq<char>, i: int) -> Option<LangId>
    decreases ts.len() - i,
{
    if i < 0 || i >= ts.len() {
        None
    } else if ts[i].provided && lowercased(ts[i].name) == low {
        Some(ts[i].id)
    } else {
        first_named(ts, low, i + 1)
    }
}

/// A language by name.
pub fn by_name(languages: &Languages, name: &str) -> (r: Option<LangId>)
    ensures
        r == first_named(languages@.langs, plain_lang_name(name@), 0),
{
    let wanted = lowercase(text_of(&trim(&chars_of(name))).as_str());
    let ghost ts = languages@.langs;
    let mut i: usize = 0;
    while i < languages.langs.len()
        invariant
            i <= languages.langs@.len(),
            ts == languages@.langs,
            wanted@ == plain_lang_name(name@),
            first_named(ts, wanted@, 0) == first_named(ts, wanted@, i as int),
        decreases languages.langs@.len() - i,
    {
        assert(ts[i as int] == languages.langs@[i as int]@);
        let l = &languages.langs[i];
        if l.is_available() && same(lowercase(l.name.as_str()).as_str(), wanted.as_str()) {
            return Some(l.id);
        }
        i = i + 1;
    }
    None
}

/// The languages among the first `n` that can be chosen: those that are there,
/// and plain text.
pub open spec fn choosable(ts: Seq<Tongue>, n: int) -> Seq<(LangId, Seq<char>)>
    decreases n,
{
    if n <= 0 {
        Seq::empty()
    } else if ts[n - 1].provided || ts[n - 1].id == LangId(0) {
        choosable(ts, n - 1).push((ts[n - 1].id, ts[n - 1].name))
    } else {
        choosable(ts, n - 1)
    }
}

/// Ids with names.
pub open spec fn named(v: Seq<(LangId, String)>) -> Seq<(LangId, Seq<char>)> {
    v.map_values(|p: (LangId, String)| (p.0, p.1@))
}

/// Every language that can be chosen.
pub fn names(languages: &Languages) -> (v: Vec<(LangId, String)>)
    ensures
        named(v@) == choosable(languages@.langs, languages@.langs.len() as int),
{
    let ghost ts = languages@.langs;
    let mut v: Vec<(LangId, String)> = Vec::new();
    let mut n: usize = 0;
    assert(named(v@) =~= choosable(ts, 0));
    while n < languages.langs.len()
        invariant
            n <= languages.langs@.len(),
            ts == languages@.langs,
            named(v@) == choosable(ts, n as int),
        decreases languages.langs@.len() - n,
    {
        assert(ts[n as int] == languages.langs@[n as int]@);
        let l = &languages.langs[n];
        if l.is_available() || l.id == LangId(0) {
            let ghost had = v@;
            v.push((l.id, l.name.clone()));
            assert(named(v@) =~= named(had).push((ts[n as int].id, ts[n as int].name)));
        }
        n = n + 1;
    }
    v
}

/// A whole name goes before any extension, and an extension before what the file
/// says of itself.
pub proof fn law_a_whole_name_goes_first(
    ts: Seq<Tongue>,
    path: Seq<char>,
    text: Seq<char>,
    other: Seq<char>,
)
    ensures
        by_whole_name(ts, low_name(path), 0) is Some ==> detected(ts, path, text)
            == by_whole_name(ts, low_name(path), 0)->0,
        by_whole_name(ts, low_name(path), 0) is Some || longest_extension(
            ts,
            low_name(path),
            ts.len() as int,
        ) is Some ==> detected(ts, path, text) == detected(ts, path, other),
{
}

proof fn lemma_longer_extension(
    best: Option<(nat, LangId)>,
    es: Seq<Seq<char>>,
    id: LangId,
    name: Seq<char>,
    n: int,
    k: int,
)
    ensures
        ({
            let r = longer_extension(best, es, id, name, n);
            &&& best is Some ==> r is Some && (r->0).0 >= (best->0).0
            &&& 0 <= k < n && has_extension(name, es[k]) ==> r is Some && (r->0).0 >= es[k].len()
        }),
    decreases n,
{
    if n > 0 {
        lemma_longer_extension(best, es, id, name, n - 1, k);
    }
}

/// Of the extensions that a name has, none is longer than the one that decides.
pub proof fn law_the_longest_extension_wins(
    ts: Seq<Tongue>,
    name: Seq<char>,
    n: int,
    i: int,
    k: int,
)
    requires
        0 <= i < n <= ts.len(),
        0 <= k < ts[i].extensions.len(),
        has_extension(name, ts[i].extensions[k]),
    ensures
        longest_extension(ts, name, n) is Some,
        (longest_extension(ts, name, n)->0).0 >= ts[i].extensions[k].len(),
    decreases n,
{
    let t = ts[n - 1];
    let less = longest_extension(ts, name, n - 1);
    if i < n - 1 {
        law_the_longest_extension_wins(ts, name, n - 1, i, k);
        lemma_longer_extension(less, t.extensions, t.id, name, t.extensions.len() as int, 0);
    } else {
        lemma_longer_extension(less, t.extensions, t.id, name, t.extensions.len() as int, k);
    }
}

// ---------------------------------------------------------------------------
// Where a project begins
// ---------------------------------------------------------------------------

/// What is in a directory: whether each of the markers is there by its name, and
/// the names of everything that is.
#[derive(Debug)]
pub struct Holding {
    pub present: Vec<bool>,
    pub names: Vec<String>,
}

/// Whether a name has an extension, whatever the case of its ASCII letters.
pub open spec fn is_of_kind(name: Seq<char>, ext: Seq<char>) -> bool {
    match last_name(name) {
        Some(last) => match suffix_of(last) {
            Some(rest) => ascii_lowercased(rest) == ascii_lowercased(ext),
            None => false,
        },
        None => false,
    }
}

/// Whether a file is one that a pattern means: of the extension behind `*.`, or
/// else of that very name.
pub open spec fn is_meant_by(path: Seq<char>, pattern: Seq<char>) -> bool {
    match stripped(pattern, "*."@) {
        Some(ext) => is_of_kind(path, ext),
        None => last_name(path) == Some(pattern),
    }
}

/// Whether a directory holds a marker: a name, or a pattern for an extension.
pub open spec fn holds_marker(h: Holding, markers: Seq<Seq<char>>, k: int) -> bool {
    match stripped(markers[k], "*."@) {
        Some(ext) => exists|i: int|
            0 <= i < h.names@.len() && is_of_kind((#[trigger] h.names@[i])@, ext),
        None => h.present@[k],
    }
}

/// Whether a directory holds one of the markers.
pub open spec fn marked(h: Holding, markers: Seq<Seq<char>>) -> bool {
    exists|k: int| 0 <= k < markers.len() && #[trigger] holds_marker(h, markers, k)
}

/// Where looking for the top of a project begins: in the directory itself, or in
/// that of a file.
pub open spec fn start_of(from: Seq<char>, is_dir: bool) -> Seq<char> {
    if is_dir {
        from
    } else {
        match above(from) {
            Some(up) => up,
            None => "."@,
        }
    }
}

/// The nearest of the directories from the `i`th on that holds a marker, or the
/// first of all.
pub open spec fn nearest_marked(
    dirs: Seq<Seq<char>>,
    hs: Seq<Holding>,
    markers: Seq<Seq<char>>,
    i: int,
) -> Seq<char>
    decreases dirs.len() - i,
{
    if i < 0 || i >= dirs.len() {
        dirs[0]
    } else if marked(hs[i], markers) {
        dirs[i]
    } else {
        nearest_marked(dirs, hs, markers, i + 1)
    }
}

fn same_kind(name: &str, ext: &Vec<char>) -> (yes: bool)
    ensures
        yes == is_of_kind(name@, ext@),
{
    match extension(name) {
        Some(rest) => {
            if rest.len() != ext.len() {
                assert(ascii_lowercased(rest@).len() != ascii_lowercased(ext@).len());
                return false;
            }
            let mut i: usize = 0;
            while i < rest.len()
                invariant
                    i <= rest@.len() == ext@.len(),
                    is_of_kind(name@, ext@) == (ascii_lowercased(rest@) == ascii_lowercased(ext@)),
                    forall|k: int|
                        0 <= k < i ==> ascii_lower(#[trigger] rest@[k]) == ascii_lower(ext@[k]),
                decreases rest@.len() - i,
            {
                if low_char(rest[i]) != low_char(ext[i]) {
                    assert(ascii_lowercased(rest@)[i as int] != ascii_lowercased(ext@)[i as int]);
                    return false;
                }
                i = i + 1;
            }
            assert(ascii_lowercased(rest@) =~= ascii_lowercased(ext@));
            true
        },
        None => false,
    }
}

fn low_char(c: char) -> (r: char)
    ensures
        r == ascii_lower(c),
{
    let n = c as u32;
    if 0x41 <= n && n <= 0x5a {
        (n + 32) as u8 as char
    } else {
        c
    }
}

/// Whether a file is one that a pattern means.
pub fn matches_pattern(path: &str, pattern: &str) -> (yes: bool)
    ensures
        yes == is_meant_by(path@, pattern@),
{
    let wanted = chars_of(pattern);
    match strip(&wanted, "*.") {
        Some(ext) => same_kind(path, &ext),
        None => match file_name(path) {
            Some(name) => {
                let name = text_of(&name);
                same(name.as_str(), pattern)
            },
            None => false,
        },
    }
}

fn has_marker(h: &Holding, markers: &Vec<String>) -> (yes: bool)
    requires
        h.present@.len() == markers@.len(),
    ensures
        yes == marked(*h, texts(markers@)),
{
    let ghost ms = texts(markers@);
    let mut k: usize = 0;
    while k < markers.len()
        invariant
            k <= markers@.len() == h.present@.len(),
            ms == texts(markers@),
            forall|j: int| 0 <= j < k ==> !#[trigger] holds_marker(*h, ms, j),
        decreases markers@.len() - k,
    {
        assert(ms[k as int] == markers@[k as int]@);
        let yes = match strip(&chars_of(markers[k].as_str()), "*.") {
            Some(ext) => {
                let mut found = false;
                let mut i: usize = 0;
                while i < h.names.len() && !found
                    invariant
                        i <= h.names@.len(),
                        found == exists|j: int|
                            0 <= j < i && is_of_kind((#[trigger] h.names@[j])@, ext@),
                    decreases h.names@.len() - i,
                {
                    found = same_kind(h.names[i].as_str(), &ext);
                    if found {
                        assert(is_of_kind(h.names@[i as int]@, ext@));
                    }
                    i = i + 1;
                }
                found
            },
            None => h.present[k],
        };
        if yes {
            assert(holds_marker(*h, ms, k as int));
            return true;
        }
        k = k + 1;
    }
    false
}

/// The directories to look in for the top of a project, the nearest first.
pub fn places_to_look(from: &str, is_dir: bool) -> (v: Vec<String>)
    ensures
        texts(v@) == ancestry(start_of(from@, is_dir)),
{
    let start: String = if is_dir {
        from.to_owned()
    } else {
        match parent(from) {
            Some(up) => up,
            None => ".".to_owned(),
        }
    };
    ancestors(start.as_str())
}

/// The directory that a language server should be told is the top of the
/// project: the nearest one from the file up that holds one of the markers, or
/// that of the file. `holdings` says what is in each of the places to look.
pub fn project_root(from: &str, is_dir: bool, markers: &Vec<String>, holdings: &Vec<Holding>) -> (r:
    String)
    requires
        holdings@.len() == ancestry(start_of(from@, is_dir)).len(),
        forall|i: int|
            0 <= i < holdings@.len() ==> (#[trigger] holdings@[i]).present@.len() == markers@.len(),
    ensures
        r@ == nearest_marked(
            ancestry(start_of(from@, is_dir)),
            holdings@,
            texts(markers@),
            0,
        ),
{
    let dirs = places_to_look(from, is_dir);
    let ghost ds = ancestry(start_of(from@, is_dir));
    let ghost ms = texts(markers@);
    assert(ds.len() == dirs@.len());
    assert(ds.len() > 0);
    let mut i: usize = 0;
    while i < dirs.len()
        invariant
            i <= dirs@.len() == ds.len() == holdings@.len(),
            ds == texts(dirs@),
            ms == texts(markers@),
            forall|k: int|
                0 <= k < holdings@.len() ==> (#[trigger] holdings@[k]).present@.len()
                    == markers@.len(),
            nearest_marked(ds, holdings@, ms, 0) == nearest_marked(ds, holdings@, ms, i as int),
            ds == ancestry(start_of(from@, is_dir)),
        decreases dirs@.len() - i,
    {
        assert(ds[i as int] == dirs@[i as int]@);
        if has_marker(&holdings[i], markers) {
            return dirs[i].clone();
        }
        i = i + 1;
    }
    assert(ds[0] == dirs@[0]@);
    dirs[0].clone()
}

// ---------------------------------------------------------------------------
// What looking a language up gives
// ---------------------------------------------------------------------------

proof fn lemma_first_answering(ts: Seq<Tongue>, low: Seq<char>, i: int)
    requires
        0 <= i <= ts.len(),
        first_answering(ts, low, i) is Some,
    ensures
        exists|k: int|
            i <= k < ts.len() && answers_to(#[trigger] ts[k], low) && first_answering(ts, low, i)
                == Some(ts[k].id),
    decreases ts.len() - i,
{
    if i < ts.len() && !answers_to(ts[i], low) {
        lemma_first_answering(ts, low, i + 1);
    }
}

/// A name of ASCII as languages are known by stays as it is.
proof fn lemma_plain_name_stays(name: Seq<char>)
    requires
        all_ascii(trimmed(name)),
    ensures
        plain_lang_name(plain_lang_name(name)) == plain_lang_name(name),
        lowercased(plain_lang_name(name)) == plain_lang_name(name),
{
    let t = trimmed(name);
    let low = plain_lang_name(name);
    lemma_trimmed(name);
    law_small_letters_stay_small(t);
    if t.len() > 0 {
        lemma_ascii_lower(t[0]);
        lemma_ascii_lower(t.last());
        assert(low[0] == ascii_lower(t[0]));
        assert(low.last() == ascii_lower(t.last()));
    }
    assert(trimmed(low) == low);
}

/// A tag means what it means without the blanks at its ends. A tag of ASCII
/// means what it means in small letters.
pub proof fn law_a_tag_means_what_it_means_in_small_letters(ts: Seq<Tongue>, tag: Seq<char>)
    ensures
        tagged(ts, trimmed(tag)) == tagged(ts, tag),
        all_ascii(trimmed(tag)) ==> tagged(ts, plain_lang_name(tag)) == tagged(ts, tag),
{
    law_trimming_twice_is_trimming_once(tag);
    if all_ascii(trimmed(tag)) {
        lemma_plain_name_stays(tag);
    }
}

/// A blank tag means nothing, no tag means plain text, and what a tag means is a
/// language that is there and that it is a name of, whatever its case and the
/// blanks round it: its own, what a server calls it, or an extension.
pub proof fn law_a_tag_is_a_name_of_what_it_means(ts: Seq<Tongue>, tag: Seq<char>)
    ensures
        trimmed(tag).len() == 0 ==> tagged(ts, tag) is None,
        tagged(ts, tag) != Some(LangId(0)),
        tagged(ts, tag) is Some ==> exists|k: int|
            0 <= k < ts.len() && Some((#[trigger] ts[k]).id) == tagged(ts, tag) && ts[k].provided && (
            lowercased(ts[k].name) == lowercased(trimmed(tag)) || lowercased(ts[k].lsp_id)
                == lowercased(trimmed(tag)) || among_low(
                ts[k].extensions,
                lowercased(trimmed(tag)),
            )),
{
    if trimmed(tag).len() == 0 {
        law_small_letters_stay_small(trimmed(tag));
    }
    if tagged(ts, tag) is Some {
        lemma_first_answering(ts, plain_lang_name(tag), 0);
    }
}

/// What a tag means in a registry is a language that is there at the id that is
/// given, and that answers to the tag. There are as many languages as there are
/// ids, or fewer.
pub proof fn law_what_a_tag_means_is_there(names: Seq<Seq<char>>, said: Said, tag: Seq<char>)
    requires
        0 < names.len() <= 0x1_0000,
        tagged(given(names, said).langs, tag) is Some,
    ensures
        ({
            let ts = given(names, said).langs;
            let id = (tagged(ts, tag)->0).0 as int;
            &&& 0 < id < ts.len()
            &&& ts[id].provided
            &&& answers_to(ts[id], plain_lang_name(tag))
        }),
{
    let ts = given(names, said).langs;
    let low = plain_lang_name(tag);
    law_every_name_has_its_language(names, said, 0);
    lemma_first_answering(ts, low, 0);
    let k = choose|k: int|
        0 <= k < ts.len() && answers_to(#[trigger] ts[k], low) && first_answering(ts, low, 0)
            == Some(ts[k].id);
    law_every_name_has_its_language(names, said, k);
}

proof fn lemma_plugin_names_differ(names: Seq<Seq<char>>, ls: Seq<(String, FileLang)>, n: int)
    requires
        names.no_duplicates(),
    ensures
        with_plugin_names(names, ls, n).no_duplicates(),
    decreases n,
{
    if n > 0 {
        lemma_plugin_names_differ(names, ls, n - 1);
    }
}

proof fn lemma_all_names_differ(names: Seq<Seq<char>>, ps: Seq<Plugin>, n: int)
    requires
        names.no_duplicates(),
    ensures
        with_all_names(names, ps, n).no_duplicates(),
    decreases n,
{
    if n > 0 {
        lemma_all_names_differ(names, ps, n - 1);
        lemma_plugin_names_differ(
            with_all_names(names, ps, n - 1),
            ps[n - 1].languages@,
            ps[n - 1].languages@.len() as int,
        );
    }
}

/// No name has two ids handed out for it.
pub proof fn law_no_name_has_two_ids(names: Seq<Seq<char>>, ps: Seq<Plugin>)
    requires
        names.no_duplicates(),
    ensures
        grown(names, ps).no_duplicates(),
{
    lemma_all_names_differ(
        if names.len() == 0 { seq!["text"@] } else { names },
        ps,
        ps.len() as int,
    );
}

proof fn lemma_first_named(ts: Seq<Tongue>, low: Seq<char>, i: int)
    requires
        0 <= i <= ts.len(),
        first_named(ts, low, i) is Some,
    ensures
        exists|k: int|
            i <= k < ts.len() && lowercased((#[trigger] ts[k]).name) == low && ts[k].provided
                && first_named(ts, low, i) == Some(ts[k].id),
    decreases ts.len() - i,
{
    if i < ts.len() && !(ts[i].provided && lowercased(ts[i].name) == low) {
        lemma_first_named(ts, low, i + 1);
    }
}

/// Whether putting names in small letters leaves them alone.
pub open spec fn in_small_letters(names: Seq<Seq<char>>) -> bool {
    forall|i: int| 0 <= i < names.len() ==> lowercased(#[trigger] names[i]) == names[i]
}

/// Whether the names that a plugin gives languages are of ASCII, but for blanks
/// round them.
pub open spec fn names_in_ascii(p: Plugin) -> bool {
    forall|k: int|
        0 <= k < p.languages@.len() ==> all_ascii(trimmed((#[trigger] p.languages@[k]).0@))
}

proof fn lemma_plugin_names_small(names: Seq<Seq<char>>, p: Plugin, n: int)
    requires
        in_small_letters(names),
        names_in_ascii(p),
        n <= p.languages@.len(),
    ensures
        in_small_letters(with_plugin_names(names, p.languages@, n)),
    decreases n,
{
    if n > 0 {
        lemma_plugin_names_small(names, p, n - 1);
        assert(all_ascii(trimmed(p.languages@[n - 1].0@)));
        lemma_plain_name_stays(p.languages@[n - 1].0@);
    }
}

proof fn lemma_all_names_small(names: Seq<Seq<char>>, ps: Seq<Plugin>, n: int)
    requires
        in_small_letters(names),
        forall|i: int| 0 <= i < ps.len() ==> names_in_ascii(#[trigger] ps[i]),
        n <= ps.len(),
    ensures
        in_small_letters(with_all_names(names, ps, n)),
    decreases n,
{
    if n > 0 {
        lemma_all_names_small(names, ps, n - 1);
        let less = with_all_names(names, ps, n - 1);
        lemma_plugin_names_small(less, ps[n - 1], ps[n - 1].languages@.len() as int);
    }
}

/// The names that ids are handed out for are in small letters, and stay so, as
/// long as plugins give names of ASCII.
pub proof fn law_names_are_kept_in_small_letters(names: Seq<Seq<char>>, ps: Seq<Plugin>)
    requires
        in_small_letters(names),
        forall|i: int| 0 <= i < ps.len() ==> names_in_ascii(#[trigger] ps[i]),
    ensures
        in_small_letters(grown(names, ps)),
{
    reveal_strlit("text");
    assert(lowercased("text"@) =~= "text"@);
    lemma_all_names_small(
        if names.len() == 0 { seq!["text"@] } else { names },
        ps,
        ps.len() as int,
    );
}

/// After the registry was built afresh, a name that gave an id gives that id or
/// none, and the language at the id has the name that it had. The names are in
/// small letters.
pub proof fn law_a_name_gives_its_id_again(
    names: Seq<Seq<char>>,
    before: Said,
    after: Said,
    low: Seq<char>,
)
    requires
        names.len() > 0,
        names.no_duplicates(),
        in_small_letters(grown(names, after.plugins@)),
        first_named(given(names, before).langs, low, 0) is Some,
    ensures
        ({
            let id = first_named(given(names, before).langs, low, 0)->0;
            let again = given(grown(names, after.plugins@), after).langs;
            &&& first_named(again, low, 0) is None || first_named(again, low, 0) == Some(id)
            &&& id.0 < names.len() <= again.len()
            &&& again[id.0 as int].name == given(names, before).langs[id.0 as int].name
        }),
{
    let now = grown(names, after.plugins@);
    let (was, again) = (given(names, before).langs, given(now, after).langs);
    law_no_name_has_two_ids(names, after.plugins@);
    law_every_name_has_its_language(names, before, 0);
    lemma_first_named(was, low, 0);
    let k = choose|k: int|
        0 <= k < was.len() && lowercased((#[trigger] was[k]).name) == low && was[k].provided
            && first_named(was, low, 0) == Some(was[k].id);
    law_every_name_has_its_language(names, before, k);
    law_a_language_keeps_its_id(names, after.plugins@, k);
    law_every_name_has_its_language(now, after, k);
    let id = was[k].id.0 as int;
    assert(id <= k);
    law_every_name_has_its_language(names, before, id);
    law_a_language_keeps_its_id(names, after.plugins@, id);
    law_every_name_has_its_language(now, after, id);
    law_a_language_keeps_its_id(names, after.plugins@, names.len() - 1);
    if first_named(again, low, 0) is Some {
        lemma_first_named(again, low, 0);
        let m = choose|m: int|
            0 <= m < again.len() && lowercased((#[trigger] again[m]).name) == low
                && again[m].provided && first_named(again, low, 0) == Some(again[m].id);
        law_every_name_has_its_language(now, after, m);
        assert(now[m] == now[k]);
        assert(m == k);
    }
}

/// The top of a project is the nearest directory that holds one of the markers, or
/// the first one looked in where none does.
pub proof fn law_the_nearest_marker_is_the_top(
    dirs: Seq<Seq<char>>,
    hs: Seq<Holding>,
    markers: Seq<Seq<char>>,
    k: int,
)
    requires
        0 <= k <= dirs.len() == hs.len(),
        forall|i: int| 0 <= i < k ==> !marked(#[trigger] hs[i], markers),
    ensures
        k < dirs.len() && marked(hs[k], markers) ==> nearest_marked(dirs, hs, markers, 0) == dirs[k],
        k == dirs.len() ==> nearest_marked(dirs, hs, markers, 0) == dirs[0],
{
    lemma_nearest(dirs, hs, markers, 0, k);
}

proof fn lemma_nearest(
    dirs: Seq<Seq<char>>,
    hs: Seq<Holding>,
    markers: Seq<Seq<char>>,
    i: int,
    k: int,
)
    requires
        0 <= i <= k <= dirs.len() == hs.len(),
        forall|j: int| i <= j < k ==> !marked(#[trigger] hs[j], markers),
    ensures
        nearest_marked(dirs, hs, markers, i) == nearest_marked(dirs, hs, markers, k),
    decreases k - i,
{
    if i < k {
        lemma_nearest(dirs, hs, markers, i + 1, k);
    }
}

} // verus!
