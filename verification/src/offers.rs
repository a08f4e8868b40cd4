//! Which packages there are: what ships and does not work yet, what lies in a
//! directory, and what repositories offer.
use vstd::prelude::*;

use crate::chars::{chars_of, lowercase, lowercased, same};
use crate::pack::{is_newer, newer, updatable, From, Listing, Origin, Package, Parcel, Remote, Shop};
use crate::path::{
    extension, file_name, is_before, join, joined, last_name, path_before, stem, stem_of, suffix_of,
};
use crate::rpc::views;
use crate::strings::{
    contains, copy_maybe, copy_texts, is_one_of, holds, maybe_text, text_of, texts, trim, trimmed,
};

verus! {

// ---------------------------------------------------------------------------
// Manifests
// ---------------------------------------------------------------------------

/// Where the manifest of a package is: the one in a directory, or the file
/// itself, where that is one.
pub open spec fn manifest_place(
    path: Seq<char>,
    is_dir: bool,
    holds_one: bool,
    is_file: bool,
) -> Option<Seq<char>> {
    if is_dir {
        if holds_one { Some(joined(path, "plugin.json"@)) } else { None }
    } else {
        let json = match last_name(path) {
            Some(name) => suffix_of(name) == Some("json"@),
            None => false,
        };
        if is_file && json { Some(path) } else { None }
    }
}

/// Where the manifest of a package is, by what is on the disk: whether the path
/// is a directory and holds a `plugin.json`, or is a file.
pub fn manifest_in(path: &str, is_dir: bool, holds_one: bool, is_file: bool) -> (r: Option<String>)
    ensures
        maybe_text(r) == manifest_place(path@, is_dir, holds_one, is_file),
{
    if is_dir {
        if holds_one {
            Some(join(path, "plugin.json"))
        } else {
            None
        }
    } else {
        let json = match extension(path) {
            Some(ext) => same(text_of(&ext).as_str(), "json"),
            None => false,
        };
        if is_file && json {
            Some(path.to_owned())
        } else {
            None
        }
    }
}

/// Just enough of a manifest to know what it calls itself.
#[derive(Debug)]
pub struct Named {
    pub id: Option<String>,
    pub name: Option<String>,
    pub about: Option<String>,
    pub version: Option<String>,
}

/// Something that lies where packages are looked for.
#[derive(Debug)]
pub struct Found {
    pub path: String,
    pub is_dir: bool,
    /// Whether it has a manifest.
    pub has_manifest: bool,
    /// What the manifest says, where it could be read.
    pub named: Option<Named>,
}

/// What a manifest says it is called, in small letters, where it says so.
pub open spec fn said_id(named: Option<Named>) -> Option<Seq<char>> {
    match named {
        Some(n) => match n.id {
            Some(id) => if lowercased(trimmed(id@)).len() > 0 {
                Some(lowercased(trimmed(id@)))
            } else {
                None
            },
            None => None,
        },
        None => None,
    }
}

/// What a package would install as: what its manifest says, or else what the
/// directory or the file is called.
pub open spec fn package_id(f: Found) -> Option<Seq<char>> {
    if !f.has_manifest {
        None
    } else {
        match (said_id(f.named), last_name(f.path@)) {
            (Some(id), _) => Some(id),
            (None, Some(name)) => Some(
                lowercased(if f.is_dir { name } else { stem_of(name) }),
            ),
            _ => None,
        }
    }
}

fn read_id(named: &Option<Named>) -> (r: Option<String>)
    ensures
        maybe_text(r) == said_id(*named),
{
    if let Some(n) = named {
        if let Some(id) = &n.id {
            let low = lowercase(text_of(&trim(&chars_of(id.as_str()))).as_str());
            if chars_of(low.as_str()).len() > 0 {
                return Some(low);
            }
        }
    }
    None
}

/// What a package would install as.
pub fn id_at(f: &Found) -> (r: Option<String>)
    ensures
        maybe_text(r) == package_id(*f),
{
    if !f.has_manifest {
        return None;
    }
    if let Some(id) = read_id(&f.named) {
        return Some(id);
    }
    if f.is_dir {
        match file_name(f.path.as_str()) {
            Some(name) => Some(lowercase(text_of(&name).as_str())),
            None => None,
        }
    } else {
        match stem(f.path.as_str()) {
            Some(name) => Some(lowercase(text_of(&name).as_str())),
            None => None,
        }
    }
}

/// What version of a plugin is installed: what its own manifest says, and
/// failing that what was remembered when it was fetched.
pub fn installed_version(manifest: &Option<String>, receipt: &Option<String>) -> (r: Option<String>)
    ensures
        maybe_text(r) == match manifest {
            Some(v) => Some(v@),
            None => maybe_text(*receipt),
        },
{
    match manifest {
        Some(v) => Some(v.clone()),
        None => copy_maybe(receipt),
    }
}

/// The directory of a plugin, where the editor may take it away again: it is a
/// link, or the editor left a receipt in it.
pub fn removable(dir: &str, linked: bool, has_receipt: bool) -> (r: Option<String>)
    ensures
        maybe_text(r) == if linked || has_receipt { Some(dir@) } else { None },
{
    if linked || has_receipt {
        Some(dir.to_owned())
    } else {
        None
    }
}

// ---------------------------------------------------------------------------
// What is here
// ---------------------------------------------------------------------------

/// A plugin that is here, as far as packages go.
#[derive(Debug)]
pub struct Known {
    pub id: String,
    pub name: String,
    pub about: String,
    pub built_in: bool,
    /// Its directory, where the editor may take it away.
    pub removable: Option<String>,
    /// The version that is installed, where that is known.
    pub installed: Option<String>,
    /// What it needs that is not there.
    pub missing: Vec<String>,
    /// Whether it says how to get what it needs.
    pub can_install: bool,
    /// Whether it says how to undo that.
    pub can_uninstall: bool,
}

/// Where a plugin that is here came from.
pub open spec fn known_origin(k: Known) -> From {
    if k.built_in {
        From::BuiltIn
    } else {
        match k.removable {
            Some(dir) => From::Here(dir@),
            None => From::Yours,
        }
    }
}

/// Where a plugin that is here came from.
pub fn origin_of(k: &Known) -> (o: Origin)
    ensures
        o@ == known_origin(*k),
{
    if k.built_in {
        Origin::BuiltIn
    } else {
        match &k.removable {
            Some(dir) => Origin::Here(dir.clone()),
            None => Origin::Yours,
        }
    }
}

/// The place of the first offer of an id, or the end.
pub open spec fn offer_place(os: Seq<(Shop, Listing)>, id: Seq<char>, i: int) -> int
    decreases os.len() - i,
{
    if 0 <= i < os.len() && os[i].1.id != id { offer_place(os, id, i + 1) } else { i }
}

/// A newer version of a plugin that is here, where the first that offers it has
/// one.
pub open spec fn newer_offer(k: Known, os: Seq<(Shop, Listing)>) -> Option<(Shop, Listing)> {
    let at = offer_place(os, k.id@, 0);
    match maybe_text(k.installed) {
        Some(had) => if at < os.len() && newer(os[at].1.version, had) { Some(os[at]) } else { None },
        None => None,
    }
}

/// A plugin that is here, as a package.
pub open spec fn known_parcel(k: Known, origin: From, missing: bool, offered: Option<Seq<char>>) -> Parcel {
    Parcel {
        id: k.id@,
        name: k.name@,
        about: k.about@,
        origin,
        missing: if missing { texts(k.missing@) } else { Seq::empty() },
        here: true,
        installed: maybe_text(k.installed),
        offered,
    }
}

/// What a plugin that is here has to offer: a newer version, or getting what it
/// needs. Nothing to fetch and nothing newer is nothing to offer.
pub open spec fn known_offer(k: Known, os: Seq<(Shop, Listing)>) -> Option<Parcel> {
    match newer_offer(k, os) {
        Some((shop, listing)) => Some(
            known_parcel(k, From::Remote(shop, listing), true, Some(listing.version)),
        ),
        None => if k.missing@.len() == 0 || !k.can_install {
            None
        } else {
            Some(known_parcel(k, known_origin(k), true, None))
        },
    }
}

/// What the first `n` plugins that are here have to offer.
pub open spec fn known_offers(ks: Seq<Known>, os: Seq<(Shop, Listing)>, n: int) -> Seq<Parcel>
    decreases n,
{
    if n <= 0 {
        Seq::empty()
    } else {
        let less = known_offers(ks, os, n - 1);
        match known_offer(ks[n - 1], os) {
            Some(p) => less.push(p),
            None => less,
        }
    }
}

/// Whether there is a package of an id, or a plugin.
pub open spec fn is_taken(ps: Seq<Parcel>, ks: Seq<Known>, id: Seq<char>) -> bool {
    ||| exists|i: int| 0 <= i < ps.len() && (#[trigger] ps[i]).id == id
    ||| exists|i: int| 0 <= i < ks.len() && (#[trigger] ks[i]).id@ == id
}

/// What lies in a directory, put among others in the order of the paths.
pub open spec fn placed_in(s: Seq<Found>, f: Found) -> Seq<Found>
    decreases s.len(),
{
    if s.len() == 0 || !path_before(f.path@, s.last().path@) {
        s.push(f)
    } else {
        placed_in(s.drop_last(), f).push(s.last())
    }
}

/// What lies in a directory, in the order of the paths.
pub open spec fn arranged(s: Seq<Found>) -> Seq<Found>
    decreases s.len(),
{
    if s.len() == 0 { s } else { placed_in(arranged(s.drop_last()), s.last()) }
}

/// Something that lies in a directory, as a package.
pub open spec fn found_parcel(f: Found, id: Seq<char>) -> Parcel {
    Parcel {
        id,
        name: match f.named {
            Some(n) => match n.name {
                Some(name) => name@,
                None => id,
            },
            None => id,
        },
        about: match f.named {
            Some(n) => match n.about {
                Some(about) => about@,
                None => f.path@,
            },
            None => f.path@,
        },
        origin: From::Path(f.path@),
        missing: Seq::empty(),
        here: false,
        installed: None,
        offered: None,
    }
}

/// Packages with the first `n` of what lies in a directory, but for what is
/// there already.
pub open spec fn with_found(ps: Seq<Parcel>, ks: Seq<Known>, fs: Seq<Found>, n: int) -> Seq<Parcel>
    decreases n,
{
    if n <= 0 {
        ps
    } else {
        let less = with_found(ps, ks, fs, n - 1);
        match package_id(fs[n - 1]) {
            Some(id) => if is_taken(less, ks, id) {
                less
            } else {
                less.push(found_parcel(fs[n - 1], id))
            },
            None => less,
        }
    }
}

/// Packages with what lies in the first `n` directories.
pub open spec fn with_dirs_found(
    ps: Seq<Parcel>,
    ks: Seq<Known>,
    ds: Seq<Vec<Found>>,
    n: int,
) -> Seq<Parcel>
    decreases n,
{
    if n <= 0 {
        ps
    } else {
        let fs = arranged(ds[n - 1]@);
        with_found(with_dirs_found(ps, ks, ds, n - 1), ks, fs, fs.len() as int)
    }
}

/// What a package needs that is lacking, among the first `n`. What it names
/// inside itself is not known until it is here.
pub open spec fn lacked(needs: Seq<Seq<char>>, lacking: Seq<Seq<char>>, n: int) -> Seq<Seq<char>>
    decreases n,
{
    if n <= 0 {
        Seq::empty()
    } else if !holds(needs[n - 1], "${"@) && lacking.contains(needs[n - 1]) {
        lacked(needs, lacking, n - 1).push(needs[n - 1])
    } else {
        lacked(needs, lacking, n - 1)
    }
}

/// What a repository offers, as a package.
pub open spec fn offered_parcel(o: (Shop, Listing), lacking: Seq<Seq<char>>) -> Parcel {
    Parcel {
        id: o.1.id,
        name: match o.1.name {
            Some(name) => name,
            None => o.1.id,
        },
        about: match o.1.about {
            Some(about) => about,
            None => "from "@ + o.0.name,
        },
        origin: From::Remote(o.0, o.1),
        missing: lacked(o.1.needs, lacking, o.1.needs.len() as int),
        here: false,
        installed: None,
        offered: Some(o.1.version),
    }
}

/// Packages with the first `n` that repositories offer, but for what is there
/// already.
pub open spec fn with_offered(
    ps: Seq<Parcel>,
    ks: Seq<Known>,
    os: Seq<(Shop, Listing)>,
    lacking: Seq<Seq<char>>,
    n: int,
) -> Seq<Parcel>
    decreases n,
{
    if n <= 0 {
        ps
    } else {
        let less = with_offered(ps, ks, os, lacking, n - 1);
        if is_taken(less, ks, os[n - 1].1.id) {
            less
        } else {
            less.push(offered_parcel(os[n - 1], lacking))
        }
    }
}

/// Everything that could be installed: what is here and does not work yet or has
/// a newer version, then what lies in a directory, and last what repositories
/// offer.
pub open spec fn all_available(
    ks: Seq<Known>,
    ds: Seq<Vec<Found>>,
    os: Seq<(Shop, Listing)>,
    lacking: Seq<Seq<char>>,
) -> Seq<Parcel> {
    let here = known_offers(ks, os, ks.len() as int);
    let lying = with_dirs_found(here, ks, ds, ds.len() as int);
    with_offered(lying, ks, os, lacking, os.len() as int)
}

/// The packages among the first `n` that have a newer version.
pub open spec fn updatable_ones(ps: Seq<Parcel>, n: int) -> Seq<Parcel>
    decreases n,
{
    if n <= 0 {
        Seq::empty()
    } else if updatable(ps[n - 1]) {
        updatable_ones(ps, n - 1).push(ps[n - 1])
    } else {
        updatable_ones(ps, n - 1)
    }
}

fn find_offer(os: &Vec<Remote>, id: &str) -> (at: usize)
    ensures
        at == offer_place(views(os@), id@, 0),
        at <= os@.len(),
        at < os@.len() ==> views(os@)[at as int] == os@[at as int]@,
{
    let ghost all = views(os@);
    let mut at: usize = 0;
    while at < os.len() && !same(os[at].entry.id.as_str(), id)
        invariant
            at <= os@.len(),
            all == views(os@),
            offer_place(all, id@, 0) == offer_place(all, id@, at as int),
        decreases os@.len() - at,
    {
        assert(all[at as int] == os@[at as int]@);
        at = at + 1;
    }
    if at < os.len() {
        assert(all[at as int] == os@[at as int]@);
    }
    at
}

fn offer_of(k: &Known, os: &Vec<Remote>) -> (r: Option<Package>)
    ensures
        match known_offer(*k, views(os@)) {
            Some(p) => r is Some && r->0@ == p,
            None => r is None,
        },
{
    let at = find_offer(os, k.id.as_str());
    let ghost all = views(os@);
    assert(all.len() == os@.len());
    let fresh = match &k.installed {
        Some(had) => at < os.len() && is_newer(os[at].entry.version.as_str(), had.as_str()),
        None => false,
    };
    if !fresh && (k.missing.len() == 0 || !k.can_install) {
        return None;
    }
    let origin = if fresh {
        Origin::Remote(os[at].copy())
    } else {
        origin_of(k)
    };
    let offered: Option<String> = if fresh {
        Some(os[at].entry.version.clone())
    } else {
        None
    };
    let p = Package {
        id: k.id.clone(),
        name: k.name.clone(),
        about: k.about.clone(),
        origin,
        missing: copy_texts(&k.missing),
        here: true,
        installed: copy_maybe(&k.installed),
        offered,
    };
    assert(p@ =~= known_offer(*k, all)->0);
    Some(p)
}

fn taken(ps: &Vec<Package>, ks: &Vec<Known>, id: &str) -> (yes: bool)
    ensures
        yes == is_taken(views(ps@), ks@, id@),
{
    let ghost all = views(ps@);
    let mut i: usize = 0;
    while i < ps.len()
        invariant
            i <= ps@.len(),
            all == views(ps@),
            forall|k: int| 0 <= k < i ==> (#[trigger] all[k]).id != id@,
        decreases ps@.len() - i,
    {
        assert(all[i as int] == ps@[i as int]@);
        if same(ps[i].id.as_str(), id) {
            return true;
        }
        i = i + 1;
    }
    let mut k: usize = 0;
    while k < ks.len()
        invariant
            k <= ks@.len(),
            all == views(ps@),
            forall|j: int| 0 <= j < all.len() ==> (#[trigger] all[j]).id != id@,
            forall|j: int| 0 <= j < k ==> (#[trigger] ks@[j]).id@ != id@,
        decreases ks@.len() - k,
    {
        if same(ks[k].id.as_str(), id) {
            assert(ks@[k as int].id@ == id@);
            return true;
        }
        k = k + 1;
    }
    false
}

fn parcel_of(f: &Found, id: String) -> (p: Package)
    ensures
        p@ == found_parcel(*f, id@),
{
    let name = match &f.named {
        Some(n) => match &n.name {
            Some(name) => name.clone(),
            None => id.clone(),
        },
        None => id.clone(),
    };
    let about = match &f.named {
        Some(n) => match &n.about {
            Some(about) => about.clone(),
            None => f.path.clone(),
        },
        None => f.path.clone(),
    };
    let ghost is = id@;
    let p = Package {
        id,
        name,
        about,
        origin: Origin::Path(f.path.clone()),
        missing: Vec::new(),
        here: false,
        installed: None,
        offered: None,
    };
    assert(p@ =~= found_parcel(*f, is));
    p
}

/// The places of what lies in a directory, in the order of the paths.
fn arrange(fs: &Vec<Found>) -> (order: Vec<usize>)
    ensures
        order@.len() == fs@.len(),
        forall|i: int| 0 <= i < order@.len() ==> (#[trigger] order@[i]) < fs@.len(),
        arranged(fs@) == Seq::new(order@.len(), |i: int| fs@[order@[i] as int]),
{
    let mut order: Vec<usize> = Vec::new();
    let mut n: usize = 0;
    assert(arranged(fs@.take(0)) =~= chosen(fs@, order@));
    while n < fs.len()
        invariant
            n <= fs@.len(),
            order@.len() == n,
            forall|i: int| 0 <= i < n ==> (#[trigger] order@[i]) < n,
            arranged(fs@.take(n as int)) == chosen(fs@, order@),
        decreases fs@.len() - n,
    {
        let ghost full = chosen(fs@, order@);
        let ghost x = fs@[n as int];
        let ghost was = order@;
        let mut i: usize = order.len();
        assert(full.take(i as int) =~= full);
        assert(placed_in(full, x) =~= placed_in(full.take(i as int), x) + full.skip(i as int));
        while i > 0 && is_before(fs[n].path.as_str(), fs[order[i - 1]].path.as_str())
            invariant
                i <= order@.len() == n,
                n < fs@.len(),
                order@ == was,
                full == chosen(fs@, was),
                x == fs@[n as int],
                forall|k: int| 0 <= k < n ==> (#[trigger] was[k]) < n,
                placed_in(full, x) == placed_in(full.take(i as int), x) + full.skip(i as int),
            decreases i,
        {
            proof {
                let head = full.take(i as int);
                assert(head.last() == fs@[was[i - 1] as int]);
                assert(head.drop_last() =~= full.take(i - 1));
                assert(placed_in(full.take(i - 1), x).push(full[i - 1]) + full.skip(i as int)
                    =~= placed_in(full.take(i - 1), x) + full.skip(i - 1));
            }
            i = i - 1;
        }
        proof {
            let head = full.take(i as int);
            if i > 0 {
                assert(head.last() == fs@[was[i - 1] as int]);
            }
            assert(placed_in(head, x) =~= head.push(x));
        }
        order.insert(i, n);
        proof {
            assert(chosen(fs@, order@) =~= full.take(i as int).push(x) + full.skip(i as int));
            assert(fs@.take(n + 1).drop_last() =~= fs@.take(n as int));
        }
        n = n + 1;
    }
    assert(fs@.take(n as int) =~= fs@);
    order
}

/// What stands at places.
pub open spec fn chosen(fs: Seq<Found>, order: Seq<usize>) -> Seq<Found> {
    Seq::new(order.len(), |i: int| fs[order[i] as int])
}

fn add_found(ps: &mut Vec<Package>, ks: &Vec<Known>, fs: &Vec<Found>)
    ensures
        views(final(ps)@) == with_found(
            views(old(ps)@),
            ks@,
            arranged(fs@),
            arranged(fs@).len() as int,
        ),
{
    let ghost base = views(ps@);
    let order = arrange(fs);
    let ghost all = arranged(fs@);
    let mut n: usize = 0;
    while n < order.len()
        invariant
            n <= order@.len(),
            order@.len() == all.len(),
            all == Seq::new(order@.len(), |i: int| fs@[order@[i] as int]),
            forall|i: int| 0 <= i < order@.len() ==> (#[trigger] order@[i]) < fs@.len(),
            views(ps@) == with_found(base, ks@, all, n as int),
        decreases order@.len() - n,
    {
        let f = &fs[order[n]];
        assert(all[n as int] == *f);
        if let Some(id) = id_at(f) {
            if !taken(ps, ks, id.as_str()) {
                let ghost had = ps@;
                let p = parcel_of(f, id);
                let ghost is = p@;
                ps.push(p);
                assert(views(ps@) =~= views(had).push(is));
            }
        }
        n = n + 1;
    }
}

/// What a package needs that is lacking, but for what it names inside itself.
pub fn not_there(needs: &Vec<String>, lacking: &Vec<String>) -> (v: Vec<String>)
    ensures
        texts(v@) == lacked(texts(needs@), texts(lacking@), needs@.len() as int),
{
    let ghost all = texts(needs@);
    let ghost out = texts(lacking@);
    let mut v: Vec<String> = Vec::new();
    let mut n: usize = 0;
    assert(texts(v@) =~= lacked(all, out, 0));
    while n < needs.len()
        invariant
            n <= needs@.len(),
            all == texts(needs@),
            out == texts(lacking@),
            texts(v@) == lacked(all, out, n as int),
        decreases needs@.len() - n,
    {
        assert(all[n as int] == needs@[n as int]@);
        if !contains(needs[n].as_str(), "${") && is_one_of(lacking, needs[n].as_str()) {
            let ghost had = v@;
            v.push(needs[n].clone());
            assert(texts(v@) =~= texts(had).push(all[n as int]));
        }
        n = n + 1;
    }
    v
}

fn offered_package(o: &Remote, lacking: &Vec<String>) -> (p: Package)
    ensures
        p@ == offered_parcel(o@, texts(lacking@)),
{
    let name = match &o.entry.name {
        Some(name) => name.clone(),
        None => o.entry.id.clone(),
    };
    let about = match &o.entry.about {
        Some(about) => about.clone(),
        None => {
            let mut s = "from ".to_owned();
            s.append(o.repository.name.as_str());
            s
        },
    };
    let p = Package {
        id: o.entry.id.clone(),
        name,
        about,
        origin: Origin::Remote(o.copy()),
        missing: not_there(&o.entry.needs, lacking),
        here: false,
        installed: None,
        offered: Some(o.entry.version.clone()),
    };
    assert(p@ =~= offered_parcel(o@, texts(lacking@)));
    p
}

/// Everything that could be installed. `found` is what lies in each of the
/// directories for packages, `offered` what the repositories offer, and
/// `lacking` the programs among what is needed that cannot be run here.
pub fn available(
    known: &Vec<Known>,
    found: &Vec<Vec<Found>>,
    offered: &Vec<Remote>,
    lacking: &Vec<String>,
) -> (ps: Vec<Package>)
    ensures
        views(ps@) == all_available(known@, found@, views(offered@), texts(lacking@)),
{
    let ghost os = views(offered@);
    let ghost out = texts(lacking@);
    let mut ps: Vec<Package> = Vec::new();
    let mut n: usize = 0;
    assert(views(ps@) =~= known_offers(known@, os, 0));
    while n < known.len()
        invariant
            n <= known@.len(),
            os == views(offered@),
            views(ps@) == known_offers(known@, os, n as int),
        decreases known@.len() - n,
    {
        if let Some(p) = offer_of(&known[n], offered) {
            let ghost had = ps@;
            let ghost is = p@;
            ps.push(p);
            assert(views(ps@) =~= views(had).push(is));
        }
        n = n + 1;
    }
    let ghost here = views(ps@);
    let mut d: usize = 0;
    while d < found.len()
        invariant
            d <= found@.len(),
            views(ps@) == with_dirs_found(here, known@, found@, d as int),
        decreases found@.len() - d,
    {
        add_found(&mut ps, known, &found[d]);
        d = d + 1;
    }
    let ghost lying = views(ps@);
    let mut m: usize = 0;
    while m < offered.len()
        invariant
            m <= offered@.len(),
            os == views(offered@),
            out == texts(lacking@),
            views(ps@) == with_offered(lying, known@, os, out, m as int),
        decreases offered@.len() - m,
    {
        assert(os[m as int] == offered@[m as int]@);
        if !taken(&ps, known, offered[m].entry.id.as_str()) {
            let ghost had = ps@;
            let p = offered_package(&offered[m], lacking);
            let ghost is = p@;
            ps.push(p);
            assert(views(ps@) =~= views(had).push(is));
        }
        m = m + 1;
    }
    assert(os.len() == offered@.len());
    ps
}

/// Everything installed that a repository has a newer version of, out of what is
/// available.
pub fn updates(available: Vec<Package>) -> (ps: Vec<Package>)
    ensures
        views(ps@) == updatable_ones(views(available@), available@.len() as int),
{
    let ghost all = views(available@);
    let mut rest = available;
    let mut ps: Vec<Package> = Vec::new();
    let ghost mut n: int = 0;
    assert(all.skip(0) =~= all);
    assert(views(ps@) =~= updatable_ones(all, 0));
    while rest.len() > 0
        invariant
            0 <= n,
            n + rest@.len() == all.len(),
            views(rest@) == all.skip(n),
            views(ps@) == updatable_ones(all, n),
        decreases rest@.len(),
    {
        let ghost before = rest@;
        let one = rest.remove(0);
        assert(one@ == views(before)[0]);
        assert(all[n] == all.skip(n)[0]);
        assert(views(rest@) =~= views(before).skip(1));
        assert(all.skip(n).skip(1) =~= all.skip(n + 1));
        if one.has_update() {
            let ghost had = ps@;
            let ghost is = one@;
            ps.push(one);
            assert(views(ps@) =~= views(had).push(is));
        }
        proof {
            n = n + 1;
        }
    }
    ps
}

/// What went wrong, among the first `n` answers.
pub open spec fn wrongs(rs: Seq<Result<(), String>>, n: int) -> Seq<Seq<char>>
    decreases n,
{
    if n <= 0 {
        Seq::empty()
    } else {
        match rs[n - 1] {
            Err(why) => wrongs(rs, n - 1).push(why@),
            Ok(_) => wrongs(rs, n - 1),
        }
    }
}

/// What went wrong with each repository that was asked what it has now and did
/// not answer. The others are not held up by it.
pub fn refresh(asked: &Vec<Result<(), String>>) -> (v: Vec<String>)
    ensures
        texts(v@) == wrongs(asked@, asked@.len() as int),
{
    let mut v: Vec<String> = Vec::new();
    let mut n: usize = 0;
    assert(texts(v@) =~= wrongs(asked@, 0));
    while n < asked.len()
        invariant
            n <= asked@.len(),
            texts(v@) == wrongs(asked@, n as int),
        decreases asked@.len() - n,
    {
        if let Err(why) = &asked[n] {
            let ghost had = v@;
            v.push(why.clone());
            assert(texts(v@) =~= texts(had).push(why@));
        }
        n = n + 1;
    }
    v
}

/// The plugins among the first `n` that could be removed: those with files that
/// the editor put here, and those that say how to undo what they fetched.
pub open spec fn removable_ones(ks: Seq<Known>, n: int) -> Seq<Parcel>
    decreases n,
{
    if n <= 0 {
        Seq::empty()
    } else {
        let k = ks[n - 1];
        let less = removable_ones(ks, n - 1);
        if known_origin(k) is Here || k.can_uninstall {
            less.push(known_parcel(k, known_origin(k), true, None))
        } else {
            less
        }
    }
}

fn known_package(k: &Known, missing: bool) -> (p: Package)
    ensures
        p@ == known_parcel(*k, known_origin(*k), missing, None),
{
    let p = Package {
        id: k.id.clone(),
        name: k.name.clone(),
        about: k.about.clone(),
        origin: origin_of(k),
        missing: if missing {
            copy_texts(&k.missing)
        } else {
            Vec::new()
        },
        here: true,
        installed: copy_maybe(&k.installed),
        offered: None,
    };
    assert(p@ =~= known_parcel(*k, known_origin(*k), missing, None));
    p
}

/// Everything installed that could be removed.
pub fn removable_plugins(known: &Vec<Known>) -> (ps: Vec<Package>)
    ensures
        views(ps@) == removable_ones(known@, known@.len() as int),
{
    let mut ps: Vec<Package> = Vec::new();
    let mut n: usize = 0;
    assert(views(ps@) =~= removable_ones(known@, 0));
    while n < known.len()
        invariant
            n <= known@.len(),
            views(ps@) == removable_ones(known@, n as int),
        decreases known@.len() - n,
    {
        let k = &known[n];
        let has_files = !k.built_in && k.removable.is_some();
        if has_files || k.can_uninstall {
            let ghost had = ps@;
            let p = known_package(k, true);
            let ghost is = p@;
            ps.push(p);
            assert(views(ps@) =~= views(had).push(is));
        }
        n = n + 1;
    }
    ps
}

// ---------------------------------------------------------------------------
// Finding one
// ---------------------------------------------------------------------------

/// The first package from `i` on of an id.
pub open spec fn parcel_place(ps: Seq<Parcel>, id: Seq<char>, i: int) -> int
    decreases ps.len() - i,
{
    if 0 <= i < ps.len() && ps[i].id != id { parcel_place(ps, id, i + 1) } else { i }
}

/// The first plugin from `i` on of an id.
pub open spec fn known_place(ks: Seq<Known>, id: Seq<char>, i: int) -> int
    decreases ks.len() - i,
{
    if 0 <= i < ks.len() && ks[i].id@ != id { known_place(ks, id, i + 1) } else { i }
}

/// A package that is named by its path.
pub open spec fn path_parcel(path: Seq<char>, id: Seq<char>) -> Parcel {
    Parcel {
        id,
        name: id,
        about: path,
        origin: From::Path(path),
        missing: Seq::empty(),
        here: false,
        installed: None,
        offered: None,
    }
}

/// The package that something names: a path, where it is one, and otherwise an
/// id of what is available or of what is here.
pub open spec fn found_by(
    what: Seq<char>,
    at: Found,
    exists_there: bool,
    available: Seq<Parcel>,
    ks: Seq<Known>,
) -> Result<Parcel, Seq<char>> {
    let id = lowercased(trimmed(what));
    let i = parcel_place(available, id, 0);
    let k = known_place(ks, id, 0);
    if at.has_manifest {
        match package_id(at) {
            Some(id) => Ok(path_parcel(at.path@, id)),
            None => Err(what + ": cannot tell what this is called"@),
        }
    } else if exists_there {
        Err(what + " has no plugin.json in it"@)
    } else if i < available.len() {
        Ok(available[i])
    } else if k < ks.len() {
        Ok(known_parcel(ks[k], known_origin(ks[k]), false, None))
    } else {
        Err("there is no package called "@ + what)
    }
}

/// What an answer says.
pub open spec fn said_result(r: Result<Package, String>) -> Result<Parcel, Seq<char>> {
    match r {
        Ok(p) => Ok(p@),
        Err(s) => Err(s@),
    }
}

/// The package that something on the command line names. `at` is what lies at
/// the path that it would be, and `exists_there` whether anything does.
pub fn find(
    what: &str,
    at: &Found,
    exists_there: bool,
    available: Vec<Package>,
    known: &Vec<Known>,
) -> (r: Result<Package, String>)
    ensures
        said_result(r) == found_by(what@, *at, exists_there, views(available@), known@),
{
    let ghost all = views(available@);
    assert(all.len() == available@.len());
    if at.has_manifest {
        return match id_at(at) {
            Some(id) => {
                let ghost is = id@;
                let p = Package {
                    name: id.clone(),
                    about: at.path.clone(),
                    origin: Origin::Path(at.path.clone()),
                    missing: Vec::new(),
                    here: false,
                    installed: None,
                    offered: None,
                    id,
                };
                assert(p@ =~= path_parcel(at.path@, is));
                Ok(p)
            },
            None => {
                let mut why = what.to_owned();
                why.append(": cannot tell what this is called");
                Err(why)
            },
        };
    }
    if exists_there {
        let mut why = what.to_owned();
        why.append(" has no plugin.json in it");
        return Err(why);
    }
    let id = lowercase(text_of(&trim(&chars_of(what))).as_str());
    let mut i: usize = 0;
    while i < available.len() && !same(available[i].id.as_str(), id.as_str())
        invariant
            i <= available@.len(),
            all == views(available@),
            parcel_place(all, id@, 0) == parcel_place(all, id@, i as int),
        decreases available@.len() - i,
    {
        assert(all[i as int] == available@[i as int]@);
        i = i + 1;
    }
    if i < available.len() {
        assert(all[i as int] == available@[i as int]@);
        let mut available = available;
        return Ok(available.remove(i));
    }
    let mut k: usize = 0;
    while k < known.len() && !same(known[k].id.as_str(), id.as_str())
        invariant
            k <= known@.len(),
            known_place(known@, id@, 0) == known_place(known@, id@, k as int),
        decreases known@.len() - k,
    {
        k = k + 1;
    }
    if k < known.len() {
        return Ok(known_package(&known[k], false));
    }
    let mut why = "there is no package called ".to_owned();
    why.append(what);
    Err(why)
}

// ---------------------------------------------------------------------------
// What holds of what is available
// ---------------------------------------------------------------------------

/// Whether no two packages have one id.
pub open spec fn one_each(ps: Seq<Parcel>) -> bool {
    forall|i: int, j: int|
        0 <= i < j < ps.len() ==> (#[trigger] ps[i]).id != (#[trigger] ps[j]).id
}

proof fn lemma_push_new(ps: Seq<Parcel>, ks: Seq<Known>, p: Parcel)
    requires
        one_each(ps),
        !is_taken(ps, ks, p.id),
    ensures
        one_each(ps.push(p)),
{
    let all = ps.push(p);
    assert forall|i: int, j: int| 0 <= i < j < all.len() implies (#[trigger] all[i]).id != (
    #[trigger] all[j]).id by {
        if j == ps.len() {
            assert(ps[i].id != p.id);
        }
    }
}

proof fn lemma_known_offers(ks: Seq<Known>, os: Seq<(Shop, Listing)>, n: int)
    requires
        0 <= n <= ks.len(),
        forall|i: int, j: int|
            0 <= i < j < ks.len() ==> (#[trigger] ks[i]).id@ != (#[trigger] ks[j]).id@,
    ensures
        one_each(known_offers(ks, os, n)),
        forall|i: int|
            0 <= i < known_offers(ks, os, n).len() ==> exists|k: int|
                0 <= k < n && (#[trigger] ks[k]).id@ == (#[trigger] known_offers(ks, os, n)[i]).id,
    decreases n,
{
    if n > 0 {
        lemma_known_offers(ks, os, n - 1);
        let less = known_offers(ks, os, n - 1);
        let all = known_offers(ks, os, n);
        if let Some(p) = known_offer(ks[n - 1], os) {
            assert forall|i: int, j: int| 0 <= i < j < all.len() implies (#[trigger] all[i]).id != (
            #[trigger] all[j]).id by {
                assert(all[i] == less[i]);
                if j < less.len() {
                    assert(all[j] == less[j]);
                } else {
                    let k = choose|k: int| 0 <= k < n - 1 && (#[trigger] ks[k]).id@ == less[i].id;
                    assert(ks[k].id@ != ks[n - 1].id@);
                }
            }
            assert forall|i: int| 0 <= i < all.len() implies exists|k: int|
                0 <= k < n && (#[trigger] ks[k]).id@ == (#[trigger] all[i]).id by {
                if i < less.len() {
                    assert(all[i] == less[i]);
                } else {
                    assert(ks[n - 1].id@ == all[i].id);
                }
            }
        }
    }
}

proof fn lemma_with_found(ps: Seq<Parcel>, ks: Seq<Known>, fs: Seq<Found>, n: int)
    requires
        one_each(ps),
    ensures
        one_each(with_found(ps, ks, fs, n)),
    decreases n,
{
    if n > 0 {
        lemma_with_found(ps, ks, fs, n - 1);
        let less = with_found(ps, ks, fs, n - 1);
        if let Some(id) = package_id(fs[n - 1]) {
            if !is_taken(less, ks, id) {
                lemma_push_new(less, ks, found_parcel(fs[n - 1], id));
            }
        }
    }
}

proof fn lemma_with_dirs_found(ps: Seq<Parcel>, ks: Seq<Known>, ds: Seq<Vec<Found>>, n: int)
    requires
        one_each(ps),
    ensures
        one_each(with_dirs_found(ps, ks, ds, n)),
    decreases n,
{
    if n > 0 {
        lemma_with_dirs_found(ps, ks, ds, n - 1);
        let fs = arranged(ds[n - 1]@);
        lemma_with_found(with_dirs_found(ps, ks, ds, n - 1), ks, fs, fs.len() as int);
    }
}

proof fn lemma_with_offered(
    ps: Seq<Parcel>,
    ks: Seq<Known>,
    os: Seq<(Shop, Listing)>,
    lacking: Seq<Seq<char>>,
    n: int,
)
    requires
        one_each(ps),
    ensures
        one_each(with_offered(ps, ks, os, lacking, n)),
    decreases n,
{
    if n > 0 {
        lemma_with_offered(ps, ks, os, lacking, n - 1);
        let less = with_offered(ps, ks, os, lacking, n - 1);
        if !is_taken(less, ks, os[n - 1].1.id) {
            lemma_push_new(less, ks, offered_parcel(os[n - 1], lacking));
        }
    }
}

/// Whatever offers it, a package is in the list once.
pub proof fn law_a_package_is_listed_once(
    ks: Seq<Known>,
    ds: Seq<Vec<Found>>,
    os: Seq<(Shop, Listing)>,
    lacking: Seq<Seq<char>>,
)
    requires
        forall|i: int, j: int|
            0 <= i < j < ks.len() ==> (#[trigger] ks[i]).id@ != (#[trigger] ks[j]).id@,
    ensures
        one_each(all_available(ks, ds, os, lacking)),
{
    lemma_known_offers(ks, os, ks.len() as int);
    let here = known_offers(ks, os, ks.len() as int);
    lemma_with_dirs_found(here, ks, ds, ds.len() as int);
    let lying = with_dirs_found(here, ks, ds, ds.len() as int);
    lemma_with_offered(lying, ks, os, lacking, os.len() as int);
}

/// A plugin that does not say what version it is has no update.
pub proof fn law_no_update_without_a_version(p: Parcel)
    requires
        p.installed is None || p.offered is None,
    ensures
        !updatable(p),
{
}

/// The packages among the first `n` of an id.
pub open spec fn of_id(ps: Seq<Parcel>, id: Seq<char>, n: int) -> Seq<Parcel>
    decreases n,
{
    if n <= 0 {
        Seq::empty()
    } else if ps[n - 1].id == id {
        of_id(ps, id, n - 1).push(ps[n - 1])
    } else {
        of_id(ps, id, n - 1)
    }
}

/// The updates that were asked for: all of them, or those of one plugin.
pub fn asked_for(updates: Vec<Package>, what: &str) -> (ps: Vec<Package>)
    ensures
        views(ps@) == if what@.len() == 0 {
            views(updates@)
        } else {
            of_id(views(updates@), lowercased(what@), updates@.len() as int)
        },
{
    if chars_of(what).len() == 0 {
        return updates;
    }
    let wanted = lowercase(what);
    let ghost all = views(updates@);
    let mut rest = updates;
    let mut ps: Vec<Package> = Vec::new();
    let ghost mut n: int = 0;
    assert(all.skip(0) =~= all);
    assert(views(ps@) =~= of_id(all, wanted@, 0));
    while rest.len() > 0
        invariant
            0 <= n,
            n + rest@.len() == all.len(),
            views(rest@) == all.skip(n),
            views(ps@) == of_id(all, wanted@, n),
        decreases rest@.len(),
    {
        let ghost before = rest@;
        let one = rest.remove(0);
        assert(one@ == views(before)[0]);
        assert(all[n] == all.skip(n)[0]);
        assert(views(rest@) =~= views(before).skip(1));
        assert(all.skip(n).skip(1) =~= all.skip(n + 1));
        if same(one.id.as_str(), wanted.as_str()) {
            let ghost had = ps@;
            let ghost is = one@;
            ps.push(one);
            assert(views(ps@) =~= views(had).push(is));
        }
        proof {
            n = n + 1;
        }
    }
    ps
}

} // verus!
