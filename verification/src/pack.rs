//! Packages: what can be installed or removed, and where it comes from and goes
//! to.
use vstd::prelude::*;

use crate::chars::chars_of;
use crate::jdk::{expand, expanded};
use crate::numbers::{parse_number, read_number};
use crate::path::{
    among, file_name, is_among, is_rooted, join, joined, last_name, names, names_of, place_below,
    put_below, rooted, same_path, unsuffixed, without_extension,
};
use crate::split::{cut, cut_at, deep};
use crate::strings::{
    copy_maybe, copy_texts, maybe_text, replace, replaced, strung, text_of, texts, trim, trimmed,
};
use crate::vars::pairs;

verus! {

// ---------------------------------------------------------------------------
// What a package is
// ---------------------------------------------------------------------------

/// A place that offers packages.
#[derive(Debug)]
pub struct Repository {
    pub name: String,
    pub url: String,
}

/// A place that offers packages.
pub ghost struct Shop {
    pub name: Seq<char>,
    pub url: Seq<char>,
}

impl View for Repository {
    type V = Shop;

    open spec fn view(&self) -> Shop {
        Shop { name: self.name@, url: self.url@ }
    }
}

/// A package, as the index of a repository lists it.
#[derive(Debug)]
pub struct Entry {
    pub id: String,
    pub name: Option<String>,
    pub about: Option<String>,
    pub version: String,
    pub url: String,
    pub sha256: Option<String>,
    pub size: Option<u64>,
    pub needs: Vec<String>,
    pub see: Option<String>,
}

/// A package, as the index of a repository lists it.
#[verifier::ext_equal]
pub ghost struct Listing {
    pub id: Seq<char>,
    pub name: Option<Seq<char>>,
    pub about: Option<Seq<char>>,
    pub version: Seq<char>,
    pub url: Seq<char>,
    pub sha256: Option<Seq<char>>,
    pub size: Option<u64>,
    pub needs: Seq<Seq<char>>,
    pub see: Option<Seq<char>>,
}

impl View for Entry {
    type V = Listing;

    open spec fn view(&self) -> Listing {
        Listing {
            id: self.id@,
            name: maybe_text(self.name),
            about: maybe_text(self.about),
            version: self.version@,
            url: self.url@,
            sha256: maybe_text(self.sha256),
            size: self.size,
            needs: texts(self.needs@),
            see: maybe_text(self.see),
        }
    }
}

/// A package that a repository is offering, and which repository.
#[derive(Debug)]
pub struct Remote {
    pub repository: Repository,
    pub entry: Entry,
}

impl View for Remote {
    type V = (Shop, Listing);

    open spec fn view(&self) -> (Shop, Listing) {
        (self.repository@, self.entry@)
    }
}

impl Remote {
    /// The same once more.
    pub fn copy(&self) -> (r: Remote)
        ensures
            r@ == self@,
    {
        copy_offer(&self.repository, &self.entry)
    }
}

/// An entry and the repository that offers it, together.
pub fn copy_offer(repository: &Repository, entry: &Entry) -> (r: Remote)
    ensures
        r@ == (repository@, entry@),
{
    let e = Entry {
        id: entry.id.clone(),
        name: copy_maybe(&entry.name),
        about: copy_maybe(&entry.about),
        version: entry.version.clone(),
        url: entry.url.clone(),
        sha256: copy_maybe(&entry.sha256),
        size: entry.size,
        needs: copy_texts(&entry.needs),
        see: copy_maybe(&entry.see),
    };
    assert(e@ =~= entry@);
    Remote {
        repository: Repository { name: repository.name.clone(), url: repository.url.clone() },
        entry: e,
    }
}

/// Where a package comes from.
#[derive(Debug)]
pub enum Origin {
    /// It ships with the editor. There is nothing to copy.
    BuiltIn,
    /// A directory on this machine, or a single manifest. Installing it copies
    /// it in.
    Path(String),
    /// Installed here already, by the editor. The path is what may be removed.
    Here(String),
    /// Here, but put there by hand. Its files are not the editor's.
    Yours,
    /// A repository has it. Installing it fetches it.
    Remote(Remote),
}

/// Where a package comes from.
pub ghost enum From {
    BuiltIn,
    Path(Seq<char>),
    Here(Seq<char>),
    Yours,
    Remote(Shop, Listing),
}

impl View for Origin {
    type V = From;

    open spec fn view(&self) -> From {
        match self {
            Origin::BuiltIn => From::BuiltIn,
            Origin::Path(path) => From::Path(path@),
            Origin::Here(path) => From::Here(path@),
            Origin::Yours => From::Yours,
            Origin::Remote(remote) => From::Remote(remote.repository@, remote.entry@),
        }
    }
}

/// What an origin is called.
pub open spec fn origin_label(o: From) -> Seq<char> {
    match o {
        From::BuiltIn => "built in"@,
        From::Path(path) => path,
        From::Here(path) => path,
        From::Yours => "yours"@,
        From::Remote(shop, _) => shop.name,
    }
}

impl Origin {
    /// What it is called.
    pub fn label(&self) -> (s: String)
        ensures
            s@ == origin_label(self@),
    {
        match self {
            Origin::BuiltIn => "built in".to_owned(),
            Origin::Path(path) => path.clone(),
            Origin::Here(path) => path.clone(),
            Origin::Yours => "yours".to_owned(),
            Origin::Remote(remote) => remote.repository.name.clone(),
        }
    }
}

/// One thing that could be installed or removed.
#[derive(Debug)]
pub struct Package {
    pub id: String,
    pub name: String,
    pub about: String,
    pub origin: Origin,
    /// What it needs that is not on this machine.
    pub missing: Vec<String>,
    /// Whether the plugin itself is here already.
    pub here: bool,
    /// The version that is here, where one is and says.
    pub installed: Option<String>,
    /// The version that could be here, where a repository offers one.
    pub offered: Option<String>,
}

/// One thing that could be installed or removed.
#[verifier::ext_equal]
pub ghost struct Parcel {
    pub id: Seq<char>,
    pub name: Seq<char>,
    pub about: Seq<char>,
    pub origin: From,
    pub missing: Seq<Seq<char>>,
    pub here: bool,
    pub installed: Option<Seq<char>>,
    pub offered: Option<Seq<char>>,
}

impl View for Package {
    type V = Parcel;

    open spec fn view(&self) -> Parcel {
        Parcel {
            id: self.id@,
            name: self.name@,
            about: self.about@,
            origin: self.origin@,
            missing: texts(self.missing@),
            here: self.here,
            installed: maybe_text(self.installed),
            offered: maybe_text(self.offered),
        }
    }
}

// ---------------------------------------------------------------------------
// Versions
// ---------------------------------------------------------------------------

/// The number that a piece of a version is. What is not a number is nought.
pub open spec fn piece_number(s: Seq<char>) -> nat {
    match read_number(s, u64::MAX as nat) {
        Some(n) => n,
        None => 0,
    }
}

/// The numbers that a version is made of, from the front. There are noughts
/// behind the last.
pub open spec fn version_number(pieces: Seq<Seq<char>>, i: int) -> nat {
    if 0 <= i < pieces.len() { piece_number(pieces[i]) } else { 0 }
}

/// Whether one version is higher than another from the `i`th number on, of `n`:
/// by the first number in which they differ.
pub open spec fn higher(a: Seq<Seq<char>>, b: Seq<Seq<char>>, i: int, n: int) -> bool
    decreases n - i,
{
    if i >= n {
        false
    } else if version_number(a, i) != version_number(b, i) {
        version_number(a, i) > version_number(b, i)
    } else {
        higher(a, b, i + 1, n)
    }
}

/// The longer of two.
pub open spec fn longer(a: Seq<Seq<char>>, b: Seq<Seq<char>>) -> int {
    if a.len() > b.len() { a.len() as int } else { b.len() as int }
}

/// Whether a version is newer than another.
pub open spec fn newer(offered: Seq<char>, had: Seq<char>) -> bool {
    let a = cut(trimmed(offered), '.');
    let b = cut(trimmed(had), '.');
    higher(a, b, 0, longer(a, b))
}

fn number_at(pieces: &Vec<Vec<char>>, i: usize) -> (n: u64)
    ensures
        n == version_number(deep(pieces@), i as int),
{
    assert(deep(pieces@).len() == pieces@.len());
    if i < pieces.len() {
        assert(deep(pieces@)[i as int] == pieces@[i as int]@);
        match parse_number(&pieces[i], u64::MAX) {
            Some(n) => n,
            None => 0,
        }
    } else {
        0
    }
}

/// Whether a version is newer than another: numbers with dots between, of which
/// the first that differs decides.
pub fn is_newer(offered: &str, had: &str) -> (yes: bool)
    ensures
        yes == newer(offered@, had@),
{
    let a = cut_at(&trim(&chars_of(offered)), '.');
    let b = cut_at(&trim(&chars_of(had)), '.');
    let ghost x = deep(a@);
    let ghost y = deep(b@);
    assert(x.len() == a@.len() && y.len() == b@.len());
    let n = if a.len() > b.len() {
        a.len()
    } else {
        b.len()
    };
    let mut i: usize = 0;
    while i < n
        invariant
            i <= n,
            x == deep(a@),
            y == deep(b@),
            n == longer(x, y),
            newer(offered@, had@) == higher(x, y, i as int, n as int),
        decreases n - i,
    {
        let p = number_at(&a, i);
        let q = number_at(&b, i);
        if p != q {
            return p > q;
        }
        i = i + 1;
    }
    false
}

proof fn lemma_not_both_higher(a: Seq<Seq<char>>, b: Seq<Seq<char>>, i: int, n: int)
    ensures
        !(higher(a, b, i, n) && higher(b, a, i, n)),
    decreases n - i,
{
    if i < n && version_number(a, i) == version_number(b, i) {
        lemma_not_both_higher(a, b, i + 1, n);
    }
}

/// Of two versions at most one is newer than the other, so none is newer than
/// itself.
pub proof fn law_an_update_goes_one_way(a: Seq<char>, b: Seq<char>)
    ensures
        !(newer(a, b) && newer(b, a)),
        !newer(a, a),
{
    let x = cut(trimmed(a), '.');
    let y = cut(trimmed(b), '.');
    lemma_not_both_higher(x, y, 0, longer(x, y));
    lemma_not_both_higher(x, x, 0, longer(x, x));
}

/// Whether there is a newer version to be had than the one installed. Where
/// either side does not say, there is none.
pub open spec fn updatable(p: Parcel) -> bool {
    match (p.installed, p.offered) {
        (Some(installed), Some(offered)) => newer(offered, installed),
        _ => false,
    }
}

/// The line under a package's name in a list.
pub open spec fn parcel_detail(p: Parcel) -> Seq<char> {
    let said = if updatable(p) {
        p.about + " — "@ + p.installed->0 + " → "@ + p.offered->0
    } else {
        match (p.offered, p.installed) {
            (Some(v), _) => p.about + " — v"@ + v,
            (None, Some(v)) => p.about + " — v"@ + v,
            _ => p.about,
        }
    };
    if p.missing.len() == 0 { said } else { said + " — needs "@ + strung(p.missing, ", "@) }
}

/// The word in the margin.
pub open spec fn parcel_tag(p: Parcel) -> Seq<char> {
    if updatable(p) {
        "update"@
    } else if !p.here {
        "new"@
    } else if p.missing.len() > 0 {
        "needs"@
    } else {
        "ready"@
    }
}

/// Texts with something between each two.
pub fn strung_up(ts: &Vec<String>, between: &str) -> (s: String)
    ensures
        s@ == strung(texts(ts@), between@),
{
    let ghost all = texts(ts@);
    let mut s: String = String::new();
    let mut n: usize = 0;
    assert(s@ =~= strung(all.take(0), between@));
    while n < ts.len()
        invariant
            n <= ts@.len(),
            all == texts(ts@),
            s@ == strung(all.take(n as int), between@),
        decreases ts@.len() - n,
    {
        assert(all.take(n + 1).drop_last() =~= all.take(n as int));
        assert(all.take(n + 1).last() == ts@[n as int]@);
        let ghost had = s@;
        if n > 0 {
            s.append(between);
        }
        s.append(ts[n].as_str());
        if n == 0 {
            assert(all.take(0).len() == 0);
            assert(had =~= Seq::<char>::empty());
            assert(s@ =~= all.take(1)[0]);
        }
        n = n + 1;
    }
    assert(all.take(n as int) =~= all);
    s
}

impl Package {
    /// Whether there is a newer version to be had than the one installed.
    pub fn has_update(&self) -> (yes: bool)
        ensures
            yes == updatable(self@),
    {
        match (&self.installed, &self.offered) {
            (Some(installed), Some(offered)) => is_newer(offered.as_str(), installed.as_str()),
            _ => false,
        }
    }

    /// The line under the name in a list.
    pub fn detail(&self) -> (s: String)
        ensures
            s@ == parcel_detail(self@),
    {
        let mut s = self.about.clone();
        let update = self.has_update();
        match (&self.installed, &self.offered) {
            (Some(installed), Some(offered)) => if update {
                s.append(" — ");
                s.append(installed.as_str());
                s.append(" → ");
                s.append(offered.as_str());
            } else {
                s.append(" — v");
                s.append(offered.as_str());
            },
            (None, Some(offered)) => {
                s.append(" — v");
                s.append(offered.as_str());
            },
            (Some(installed), None) => {
                s.append(" — v");
                s.append(installed.as_str());
            },
            (None, None) => {},
        }
        assert(texts(self.missing@).len() == self.missing@.len());
        if self.missing.len() > 0 {
            s.append(" — needs ");
            s.append(strung_up(&self.missing, ", ").as_str());
        }
        s
    }

    /// The word in the margin.
    pub fn tag(&self) -> (s: &'static str)
        ensures
            s@ == parcel_tag(self@),
    {
        assert(texts(self.missing@).len() == self.missing@.len());
        if self.has_update() {
            "update"
        } else if !self.here {
            "new"
        } else if self.missing.len() > 0 {
            "needs"
        } else {
            "ready"
        }
    }
}

/// Where packages may come from: the directories to look in, and the
/// repositories to fetch from.
#[derive(Debug)]
pub struct Sources<'a> {
    pub paths: &'a Vec<String>,
    pub repositories: &'a Vec<Repository>,
}

impl<'a> Sources<'a> {
    /// Both, as the settings have them.
    pub fn of(paths: &'a Vec<String>, repositories: &'a Vec<Repository>) -> (s: Sources<'a>)
        ensures
            *s.paths == *paths,
            *s.repositories == *repositories,
    {
        Sources { paths, repositories }
    }
}

// ---------------------------------------------------------------------------
// Finding programs
// ---------------------------------------------------------------------------

/// How a program is looked for.
#[derive(Debug)]
pub enum Lookup {
    /// Not at all: no name is no program.
    Nowhere,
    /// It is there if this file is.
    File(String),
    /// It is there if one of these can be run.
    Runnable(Vec<String>),
}

/// How a program is looked for.
pub ghost enum Search {
    Nowhere,
    File(Seq<char>),
    Runnable(Seq<Seq<char>>),
}

impl View for Lookup {
    type V = Search;

    open spec fn view(&self) -> Search {
        match self {
            Lookup::Nowhere => Search::Nowhere,
            Lookup::File(path) => Search::File(path@),
            Lookup::Runnable(paths) => Search::Runnable(texts(paths@)),
        }
    }
}

/// How many parts a path has: its names, and the root.
pub open spec fn parts(p: Seq<char>) -> int {
    names(p).len() + if rooted(p) { 1int } else { 0 }
}

/// A path with another extension.
pub open spec fn with_extension(p: Seq<char>, ext: Seq<char>) -> Seq<char> {
    match last_name(p) {
        Some(_) => unsuffixed(p) + "."@ + ext,
        None => p,
    }
}

/// The files that would be a program in the first `n` directories: under its
/// name, or with what some systems put behind it.
pub open spec fn candidates(dirs: Seq<Seq<char>>, command: Seq<char>, n: int) -> Seq<Seq<char>>
    decreases n,
{
    if n <= 0 {
        Seq::empty()
    } else {
        let full = joined(dirs[n - 1], command);
        candidates(dirs, command, n - 1) + seq![
            full,
            with_extension(full, "exe"@),
            with_extension(full, "cmd"@),
            with_extension(full, "bat"@),
        ]
    }
}

/// How a program is looked for: one that is named by a path as a file, and any
/// other along the given directories.
pub open spec fn search_for(command: Seq<char>, dirs: Seq<Seq<char>>) -> Search {
    let c = trimmed(command);
    if c.len() == 0 {
        Search::Nowhere
    } else if parts(c) > 1 {
        Search::File(c)
    } else {
        Search::Runnable(candidates(dirs, c, dirs.len() as int))
    }
}

pub(crate) fn put_extension(p: &str, ext: &str) -> (s: String)
    ensures
        s@ == with_extension(p@, ext@),
{
    match file_name(p) {
        Some(_) => {
            let mut s = without_extension(p);
            s.append(".");
            s.append(ext);
            s
        },
        None => p.to_owned(),
    }
}

/// How a program is looked for, along the directories that a shell looks in.
pub fn on_path(command: &str, dirs: &Vec<String>) -> (l: Lookup)
    ensures
        l@ == search_for(command@, texts(dirs@)),
{
    let c = trim(&chars_of(command));
    if c.len() == 0 {
        return Lookup::Nowhere;
    }
    let command = text_of(&c);
    let names = names_of(command.as_str());
    assert(deep(names@).len() == names@.len());
    let root: bool = is_rooted(command.as_str());
    if names.len() > 1 || (names.len() == 1 && root) {
        return Lookup::File(command);
    }
    let ghost ds = texts(dirs@);
    let mut found: Vec<String> = Vec::new();
    let mut n: usize = 0;
    assert(texts(found@) =~= candidates(ds, command@, 0));
    while n < dirs.len()
        invariant
            n <= dirs@.len(),
            ds == texts(dirs@),
            texts(found@) == candidates(ds, command@, n as int),
        decreases dirs@.len() - n,
    {
        assert(ds[n as int] == dirs@[n as int]@);
        let ghost had = found@;
        let full = join(dirs[n].as_str(), command.as_str());
        let exe = put_extension(full.as_str(), "exe");
        let cmd = put_extension(full.as_str(), "cmd");
        let bat = put_extension(full.as_str(), "bat");
        let ghost more = seq![full@, exe@, cmd@, bat@];
        found.push(full);
        found.push(exe);
        found.push(cmd);
        found.push(bat);
        assert(texts(found@) =~= texts(had) + more);
        n = n + 1;
    }
    Lookup::Runnable(found)
}

/// Whether a file can be run: it is one, and somebody may. A machine that keeps no
/// such bits with its files lets anybody.
pub fn runnable(is_file: bool, mode: Option<u32>) -> (yes: bool)
    ensures
        yes == (is_file && match mode {
            Some(mode) => mode & 0o111 != 0,
            None => true,
        }),
{
    is_file && match mode {
        Some(mode) => mode & 0o111 != 0,
        None => true,
    }
}

// ---------------------------------------------------------------------------
// The editor's own corner of the machine
// ---------------------------------------------------------------------------

/// A path below one that may not be there.
pub open spec fn below(base: Option<Seq<char>>, name: Seq<char>) -> Option<Seq<char>> {
    match base {
        Some(base) => Some(joined(base, name)),
        None => None,
    }
}

fn join_maybe(base: &Option<String>, name: &str) -> (r: Option<String>)
    ensures
        maybe_text(r) == below(maybe_text(*base), name@),
{
    match base {
        Some(base) => Some(join(base.as_str(), name)),
        None => None,
    }
}

/// Where plugins are installed to, below the settings.
pub fn plugins_dir(config_dir: &Option<String>) -> (r: Option<String>)
    ensures
        maybe_text(r) == below(maybe_text(*config_dir), "plugins"@),
{
    join_maybe(config_dir, "plugins")
}

/// Where what the editor installs goes: below what the environment names, or
/// else below the home directory, or, on Windows, the directory for data.
pub open spec fn tools_place(
    data_home: Option<Seq<char>>,
    home: Option<Seq<char>>,
    data_dir: Option<Seq<char>>,
    windows: bool,
) -> Option<Seq<char>> {
    let said = match data_home {
        Some(d) => d.len() > 0,
        None => false,
    };
    if said {
        low(low(data_home, "textfold"@, windows), "tools"@, windows)
    } else if windows {
        low(low(data_dir, "textfold"@, windows), "tools"@, windows)
    } else {
        below(below(below(below(home, ".local"@), "share"@), "textfold"@), "tools"@)
    }
}

/// What lies below a directory that may not be there, on Windows or elsewhere.
pub open spec fn low(dir: Option<Seq<char>>, name: Seq<char>, windows: bool) -> Option<Seq<char>> {
    match dir {
        Some(dir) => Some(put_below(dir, name, windows)),
        None => None,
    }
}

fn low_maybe(dir: &Option<String>, name: &str, windows: bool) -> (r: Option<String>)
    ensures
        maybe_text(r) == low(maybe_text(*dir), name@, windows),
{
    match dir {
        Some(dir) => Some(place_below(dir.as_str(), name, windows)),
        None => None,
    }
}

/// Where what the editor installs goes.
pub fn tools_dir(
    data_home: &Option<String>,
    home: &Option<String>,
    data_dir: &Option<String>,
    windows: bool,
) -> (r: Option<String>)
    ensures
        maybe_text(r) == tools_place(
            maybe_text(*data_home),
            maybe_text(*home),
            maybe_text(*data_dir),
            windows,
        ),
{
    if let Some(d) = data_home {
        if chars_of(d.as_str()).len() > 0 {
            return low_maybe(&low_maybe(data_home, "textfold", windows), "tools", windows);
        }
    }
    if windows {
        low_maybe(&low_maybe(data_dir, "textfold", windows), "tools", windows)
    } else {
        let share = join_maybe(&join_maybe(home, ".local"), "share");
        join_maybe(&join_maybe(&share, "textfold"), "tools")
    }
}

/// Where the programs themselves end up.
pub fn bin_dir(tools: &Option<String>, windows: bool) -> (r: Option<String>)
    ensures
        maybe_text(r) == low(maybe_text(*tools), "bin"@, windows),
{
    low_maybe(tools, "bin", windows)
}

/// The directories that programs are looked for in, with the editor's own put
/// last, where it is not among them.
pub open spec fn with_own(dirs: Seq<Seq<char>>, bin: Option<Seq<char>>) -> Option<Seq<Seq<char>>> {
    match bin {
        Some(bin) => if among(dirs, bin) { None } else { Some(dirs.push(bin)) },
        None => None,
    }
}

/// What the directories become that programs are looked for in: the editor's own
/// goes last, so that what somebody installed themselves goes on winning. None
/// where nothing is to be changed.
pub fn put_tools_on_path(dirs: &Vec<String>, bin: &Option<String>) -> (r: Option<Vec<String>>)
    ensures
        match with_own(texts(dirs@), maybe_text(*bin)) {
            Some(ds) => r is Some && texts(r->0@) == ds,
            None => r is None,
        },
{
    match bin {
        Some(bin) => {
            if is_among(dirs, bin.as_str()) {
                return None;
            }
            let mut v = copy_texts(dirs);
            let ghost had = v@;
            v.push(bin.clone());
            assert(texts(v@) =~= texts(had).push(bin@));
            Some(v)
        },
        None => None,
    }
}

/// Putting the editor's own directory last twice is putting it there once.
pub proof fn law_the_path_is_extended_once(dirs: Seq<Seq<char>>, bin: Seq<char>)
    ensures
        match with_own(dirs, Some(bin)) {
            Some(ds) => ds.last() == bin && ds.drop_last() == dirs && with_own(ds, Some(bin)) is None,
            None => among(dirs, bin),
        },
{
    if let Some(ds) = with_own(dirs, Some(bin)) {
        assert(same_path(ds[ds.len() - 1], bin));
        assert(ds.drop_last() =~= dirs);
    }
}

/// What a step of an installation is run with, so that what it fetches lands in
/// the editor's own directory.
pub open spec fn install_vars(tools: Option<Seq<char>>, windows: bool) -> Seq<(Seq<char>, Seq<char>)> {
    match tools {
        Some(t) => seq![
            ("npm_config_prefix"@, t),
            ("PYTHONUSERBASE"@, t),
            ("PIPX_HOME"@, put_below(t, "pipx"@, windows)),
            ("PIPX_BIN_DIR"@, put_below(t, "bin"@, windows)),
            ("UV_TOOL_DIR"@, put_below(t, "uv"@, windows)),
            ("UV_TOOL_BIN_DIR"@, put_below(t, "bin"@, windows)),
            ("CARGO_INSTALL_ROOT"@, t),
            ("GOBIN"@, put_below(t, "bin"@, windows)),
        ],
        None => Seq::empty(),
    }
}

/// What a step of an installation is run with.
pub fn install_env(tools: &Option<String>, windows: bool) -> (v: Vec<(String, String)>)
    ensures
        pairs(v@) == install_vars(maybe_text(*tools), windows),
{
    let mut v: Vec<(String, String)> = Vec::new();
    if let Some(t) = tools {
        let bin = place_below(t.as_str(), "bin", windows);
        v.push(("npm_config_prefix".to_owned(), t.clone()));
        v.push(("PYTHONUSERBASE".to_owned(), t.clone()));
        v.push(("PIPX_HOME".to_owned(), place_below(t.as_str(), "pipx", windows)));
        v.push(("PIPX_BIN_DIR".to_owned(), bin.clone()));
        v.push(("UV_TOOL_DIR".to_owned(), place_below(t.as_str(), "uv", windows)));
        v.push(("UV_TOOL_BIN_DIR".to_owned(), bin.clone()));
        v.push(("CARGO_INSTALL_ROOT".to_owned(), t.clone()));
        v.push(("GOBIN".to_owned(), bin));
    }
    assert(pairs(v@) =~= install_vars(maybe_text(*tools), windows));
    v
}

/// Directories with the first `n` further ones, each once.
pub open spec fn with_dirs(
    dirs: Seq<Seq<char>>,
    also: Seq<Seq<char>>,
    home: Option<Seq<char>>,
    n: int,
) -> Seq<Seq<char>>
    decreases n,
{
    if n <= 0 {
        dirs
    } else {
        let less = with_dirs(dirs, also, home, n - 1);
        let p = expanded(also[n - 1], home);
        if among(less, p) { less } else { less.push(p) }
    }
}

/// Where packages are looked for: beside the settings, and wherever else
/// somebody said.
pub fn package_dirs(
    config_dir: &Option<String>,
    also: &Vec<String>,
    home: &Option<String>,
) -> (v: Vec<String>)
    ensures
        ({
            let first = match below(maybe_text(*config_dir), "packages"@) {
                Some(d) => seq![d],
                None => Seq::empty(),
            };
            texts(v@) == with_dirs(first, texts(also@), maybe_text(*home), also@.len() as int)
        }),
{
    let mut v: Vec<String> = Vec::new();
    if let Some(d) = join_maybe(config_dir, "packages") {
        let ghost is = d@;
        v.push(d);
        assert(texts(v@) =~= seq![is]);
    } else {
        assert(texts(v@) =~= Seq::<Seq<char>>::empty());
    }
    let ghost first = texts(v@);
    let ghost more = texts(also@);
    let ghost at_home = maybe_text(*home);
    let mut n: usize = 0;
    while n < also.len()
        invariant
            n <= also@.len(),
            more == texts(also@),
            at_home == maybe_text(*home),
            texts(v@) == with_dirs(first, more, at_home, n as int),
        decreases also@.len() - n,
    {
        assert(more[n as int] == also@[n as int]@);
        let p = expand(also[n].as_str(), home);
        if !is_among(&v, p.as_str()) {
            let ghost had = v@;
            let ghost is = p@;
            v.push(p);
            assert(texts(v@) =~= texts(had).push(is));
        }
        n = n + 1;
    }
    v
}

/// A text with the editor's own directories put in for `${tools}` and `${bin}`.
pub open spec fn with_tools(text: Seq<char>, tools: Option<Seq<char>>) -> Seq<char> {
    match tools {
        Some(t) => replaced(
            replaced(text, "${tools}"@, t),
            "${bin}"@,
            joined(t, "bin"@),
        ),
        None => text,
    }
}

/// A text with the editor's own directories put in for `${tools}` and `${bin}`.
pub fn fill(text: &str, tools: &Option<String>) -> (s: String)
    ensures
        s@ == with_tools(text@, maybe_text(*tools)),
{
    match tools {
        Some(t) => {
            proof {
                reveal_strlit("${tools}");
                reveal_strlit("${bin}");
            }
            let once = replace(&chars_of(text), "${tools}", t.as_str());
            let bin = join(t.as_str(), "bin");
            text_of(&replace(&once, "${bin}", bin.as_str()))
        },
        None => text.to_owned(),
    }
}

/// Of two versions the one is newer whose number is the greater where they first
/// differ. A number that is not there counts as nought.
pub proof fn law_the_first_number_that_differs_decides(a: Seq<char>, b: Seq<char>, k: int)
    requires
        0 <= k,
        forall|i: int|
            0 <= i < k ==> #[trigger] version_number(cut(trimmed(a), '.'), i) == version_number(
                cut(trimmed(b), '.'),
                i,
            ),
    ensures
        version_number(cut(trimmed(a), '.'), k) > version_number(cut(trimmed(b), '.'), k) ==> newer(
            a,
            b,
        ),
        version_number(cut(trimmed(a), '.'), k) < version_number(cut(trimmed(b), '.'), k) ==> !newer(
            a,
            b,
        ),
        forall|i: int|
            i >= cut(trimmed(a), '.').len() ==> #[trigger] version_number(cut(trimmed(a), '.'), i) == 0,
{
    let (x, y) = (cut(trimmed(a), '.'), cut(trimmed(b), '.'));
    if version_number(x, k) != version_number(y, k) {
        assert(k < longer(x, y));
        lemma_first_difference(x, y, 0, k, longer(x, y));
    }
}

proof fn lemma_first_difference(x: Seq<Seq<char>>, y: Seq<Seq<char>>, i: int, k: int, n: int)
    requires
        0 <= i <= k < n,
        forall|j: int| i <= j < k ==> #[trigger] version_number(x, j) == version_number(y, j),
        version_number(x, k) != version_number(y, k),
    ensures
        higher(x, y, i, n) == (version_number(x, k) > version_number(y, k)),
    decreases k - i,
{
    if i < k {
        assert(version_number(x, i) == version_number(y, i));
        lemma_first_difference(x, y, i + 1, k, n);
    }
}

} // verus!
