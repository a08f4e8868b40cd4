//! Paths, as Unix writes them: names with slashes between.
use vstd::prelude::*;

use crate::chars::{chars_of, large, small, string_of};
use crate::split::{copy_line, cut, cut_at, deep, lemma_cut_some, same_line};
use crate::strings::{comes_before, find_last, last_of, piece, precedes, texts};

verus! {

/// Whether a path begins at the root.
pub open spec fn rooted(p: Seq<char>) -> bool {
    p.len() > 0 && p[0] == '/'
}

/// Whether a piece of a path is one of its names: not where two slashes meet,
/// and not a dot, but for one at the very front.
pub open spec fn is_name(pieces: Seq<Seq<char>>, i: int) -> bool {
    pieces[i].len() > 0 && (pieces[i] != seq!['.'] || i == 0)
}

/// The first `n` pieces of a path that are names.
pub open spec fn names_among(pieces: Seq<Seq<char>>, n: int) -> Seq<Seq<char>>
    decreases n,
{
    if n <= 0 {
        Seq::empty()
    } else if is_name(pieces, n - 1) {
        names_among(pieces, n - 1).push(pieces[n - 1])
    } else {
        names_among(pieces, n - 1)
    }
}

/// The names that make up a path.
pub open spec fn names(p: Seq<char>) -> Seq<Seq<char>> {
    let pieces = cut(p, '/');
    names_among(pieces, pieces.len() as int)
}

/// Whether a path is another, or lies below it.
pub open spec fn lies_in(p: Seq<char>, root: Seq<char>) -> bool {
    rooted(p) == rooted(root) && names(root).is_prefix_of(names(p))
}

/// The names that make up a path.
pub fn names_of(p: &str) -> (ns: Vec<Vec<char>>)
    ensures
        deep(ns@) == names(p@),
{
    let v = chars_of(p);
    let pieces = cut_at(&v, '/');
    let ghost all = deep(pieces@);
    let mut ns: Vec<Vec<char>> = Vec::new();
    let mut n: usize = 0;
    assert(deep(ns@) =~= names_among(all, 0));
    while n < pieces.len()
        invariant
            n <= pieces@.len(),
            all == deep(pieces@),
            deep(ns@) == names_among(all, n as int),
        decreases pieces@.len() - n,
    {
        let one = &pieces[n];
        assert(all[n as int] == one@);
        let dot = one.len() == 1 && one[0] == '.';
        assert(dot == (one@ =~= seq!['.']));
        if one.len() > 0 && (!dot || n == 0) {
            let ghost had = ns@;
            ns.push(copy_line(one));
            assert(deep(ns@) =~= deep(had).push(one@));
        }
        n = n + 1;
    }
    ns
}

/// Whether a path begins at the root.
pub fn is_rooted(p: &str) -> (yes: bool)
    ensures
        yes == rooted(p@),
{
    let v = chars_of(p);
    v.len() > 0 && v[0] == '/'
}

fn leads(a: &Vec<Vec<char>>, b: &Vec<Vec<char>>) -> (yes: bool)
    ensures
        yes == deep(a@).is_prefix_of(deep(b@)),
{
    if a.len() > b.len() {
        return false;
    }
    let mut i: usize = 0;
    while i < a.len()
        invariant
            i <= a@.len() <= b@.len(),
            forall|j: int| 0 <= j < i ==> (#[trigger] deep(a@)[j]) == deep(b@)[j],
        decreases a@.len() - i,
    {
        assert(deep(a@)[i as int] == a@[i as int]@);
        assert(deep(b@)[i as int] == b@[i as int]@);
        if !same_line(&a[i], &b[i]) {
            assert(deep(b@).take(a@.len() as int)[i as int] == deep(b@)[i as int]);
            return false;
        }
        i = i + 1;
    }
    assert(deep(b@).take(a@.len() as int) =~= deep(a@));
    true
}

/// Whether a path is another, or lies below it.
pub fn is_in(p: &str, root: &str) -> (yes: bool)
    ensures
        yes == lies_in(p@, root@),
{
    if is_rooted(p) != is_rooted(root) {
        return false;
    }
    let mine = names_of(p);
    let its = names_of(root);
    leads(&its, &mine)
}

/// A path taken from a directory: itself where it begins at the root.
pub open spec fn joined(base: Seq<char>, p: Seq<char>) -> Seq<char> {
    if rooted(p) {
        p
    } else if base.len() > 0 && base.last() != '/' {
        base.push('/') + p
    } else {
        base + p
    }
}

/// A path taken from a directory.
pub fn join(base: &str, p: &str) -> (r: String)
    ensures
        r@ == joined(base@, p@),
{
    if is_rooted(p) {
        return p.to_owned();
    }
    let b = chars_of(base);
    let mut r: String = base.to_owned();
    if b.len() > 0 && b[b.len() - 1] != '/' {
        r.push('/');
    }
    r.append(p);
    r
}

/// Whether a path on Windows is a drive alone.
pub open spec fn is_drive(p: Seq<char>) -> bool {
    p.len() == 2 && p[1] == ':' && (large(p[0]) || small(p[0]))
}

/// What lies below a directory, on Windows or elsewhere, by a path that does not
/// begin at a root or with a drive.
pub open spec fn put_below(base: Seq<char>, p: Seq<char>, windows: bool) -> Seq<char> {
    if !windows {
        joined(base, p)
    } else if base.len() == 0 || base.last() == '\\' || base.last() == '/' || is_drive(base) {
        base + p
    } else {
        base.push('\\') + p
    }
}

/// What lies below a directory, on Windows or elsewhere.
pub fn place_below(base: &str, p: &str, windows: bool) -> (r: String)
    ensures
        r@ == put_below(base@, p@, windows),
{
    if !windows {
        return join(base, p);
    }
    let b = chars_of(base);
    let n = b.len();
    let mut r: String = base.to_owned();
    if n > 0 && b[n - 1] != '\\' && b[n - 1] != '/' && !names_drive(&b) {
        r.push('\\');
    }
    r.append(p);
    r
}

/// The last name of a path, where that is the name of a file.
pub open spec fn last_name(p: Seq<char>) -> Option<Seq<char>> {
    let ns = names(p);
    if ns.len() == 0 || ns.last() == seq!['.', '.'] || ns.last() == seq!['.'] {
        None
    } else {
        Some(ns.last())
    }
}

/// The last name of a path, where that is the name of a file.
pub fn file_name(p: &str) -> (r: Option<Vec<char>>)
    ensures
        match last_name(p@) {
            Some(name) => r is Some && r->0@ == name,
            None => r is None,
        },
{
    let mut ns = names_of(p);
    if ns.len() == 0 {
        return None;
    }
    assert(deep(ns@).last() == ns@.last()@);
    let last = copy_line(&ns[ns.len() - 1]);
    let up = last.len() == 2 && last[0] == '.' && last[1] == '.';
    let here = last.len() == 1 && last[0] == '.';
    assert(up == (last@ =~= seq!['.', '.']));
    assert(here == (last@ =~= seq!['.']));
    if up || here {
        None
    } else {
        Some(last)
    }
}

/// A path on Windows with a slash wherever it has a backslash.
pub open spec fn slashed(p: Seq<char>) -> Seq<char> {
    p.map_values(|c: char| if c == '\\' { '/' } else { c })
}

/// Whether a path on Windows, with slashes, is the root of a share or less.
pub open spec fn is_share(p: Seq<char>) -> bool {
    p.len() >= 2 && p[0] == '/' && p[1] == '/' && names(p).len() <= 2
}

/// The last name of a path, on Windows or elsewhere, where that is the name of a
/// file.
pub open spec fn last_name_on(p: Seq<char>, windows: bool) -> Option<Seq<char>> {
    if !windows {
        last_name(p)
    } else if is_share(slashed(p)) {
        None
    } else {
        match last_name(slashed(p)) {
            Some(n) => if is_drive(n) { None } else { Some(n) },
            None => None,
        }
    }
}

/// The last name of a path, on Windows or elsewhere, where that is the name of a
/// file.
pub fn file_name_on(p: &str, windows: bool) -> (r: Option<Vec<char>>)
    ensures
        match last_name_on(p@, windows) {
            Some(n) => r is Some && r->0@ == n,
            None => r is None,
        },
{
    if !windows {
        return file_name(p);
    }
    let v = chars_of(p);
    let mut with: String = String::new();
    let mut i: usize = 0;
    assert(with@ =~= slashed(v@.take(0)));
    while i < v.len()
        invariant
            i <= v@.len(),
            with@ == slashed(v@.take(i as int)),
        decreases v@.len() - i,
    {
        with.push(if v[i] == '\\' { '/' } else { v[i] });
        i = i + 1;
        assert(with@ =~= slashed(v@.take(i as int)));
    }
    assert(v@.take(i as int) =~= v@);
    let w = chars_of(with.as_str());
    if w.len() >= 2 && w[0] == '/' && w[1] == '/' {
        let ns = names_of(with.as_str());
        assert(deep(ns@).len() == ns@.len());
        if ns.len() <= 2 {
            return None;
        }
    }
    match file_name(with.as_str()) {
        Some(n) => if names_drive(&n) { None } else { Some(n) },
        None => None,
    }
}

fn names_drive(v: &Vec<char>) -> (yes: bool)
    ensures
        yes == is_drive(v@),
{
    if v.len() != 2 || v[1] != ':' {
        return false;
    }
    let code = v[0] as u32;
    (0x41 <= code && code <= 0x5a) || (0x61 <= code && code <= 0x7a)
}

/// What comes after the last dot of a file's name, where something comes
/// before it.
pub open spec fn suffix_of(name: Seq<char>) -> Option<Seq<char>> {
    match last_of(name, '.') {
        Some(i) => if i > 0 { Some(name.skip(i + 1)) } else { None },
        None => None,
    }
}

/// What comes after the last dot of a file's name.
pub fn extension(p: &str) -> (r: Option<Vec<char>>)
    ensures
        match last_name(p@) {
            Some(name) => match suffix_of(name) {
                Some(rest) => r is Some && r->0@ == rest,
                None => r is None,
            },
            None => r is None,
        },
{
    let name = match file_name(p) {
        Some(name) => name,
        None => {
            return None;
        },
    };
    let end = name.len();
    match find_last(&name, '.') {
        Some(i) => {
            if i == 0 {
                return None;
            }
            let rest = piece(&name, i + 1, end);
            assert(rest@ =~= name@.skip(i + 1));
            assert(suffix_of(name@) == Some(rest@));
            Some(rest)
        },
        None => None,
    }
}

/// A file's name without what comes after its last dot, and without the dot.
pub open spec fn stem_of(name: Seq<char>) -> Seq<char> {
    match last_of(name, '.') {
        Some(i) => if i > 0 { name.take(i) } else { name },
        None => name,
    }
}

/// A file's name without what comes after its last dot.
pub fn stem(p: &str) -> (r: Option<Vec<char>>)
    ensures
        match last_name(p@) {
            Some(name) => r is Some && r->0@ == stem_of(name),
            None => r is None,
        },
{
    match file_name(p) {
        Some(name) => match find_last(&name, '.') {
            Some(i) => if i > 0 {
                assert(name@.take(i as int) =~= name@.subrange(0, i as int));
                Some(piece(&name, 0, i))
            } else {
                Some(name)
            },
            None => Some(name),
        },
        None => None,
    }
}

// ---------------------------------------------------------------------------
// Order
// ---------------------------------------------------------------------------

/// Whether two paths are the same, however they are written.
pub open spec fn same_path(a: Seq<char>, b: Seq<char>) -> bool {
    rooted(a) == rooted(b) && names(a) == names(b)
}

/// Where a name stands among others: the directory itself, the one above, and
/// then what has a name.
pub open spec fn name_kind(n: Seq<char>) -> int {
    if n == seq!['.'] {
        0
    } else if n == seq!['.', '.'] {
        1
    } else {
        2
    }
}

/// Whether one name comes before another.
pub open spec fn name_before(a: Seq<char>, b: Seq<char>) -> bool {
    if name_kind(a) != name_kind(b) { name_kind(a) < name_kind(b) } else { precedes(a, b) }
}

/// Whether names come before others, name by name.
pub open spec fn names_before(a: Seq<Seq<char>>, b: Seq<Seq<char>>) -> bool
    decreases a.len(),
{
    if b.len() == 0 {
        false
    } else if a.len() == 0 {
        true
    } else if a[0] == b[0] {
        names_before(a.skip(1), b.skip(1))
    } else {
        name_before(a[0], b[0])
    }
}

/// Whether one path comes before another: those that begin at the root first,
/// and then name by name.
pub open spec fn path_before(a: Seq<char>, b: Seq<char>) -> bool {
    if rooted(a) != rooted(b) { rooted(a) } else { names_before(names(a), names(b)) }
}

/// Whether two paths are the same, however they are written.
pub fn is_same(a: &str, b: &str) -> (yes: bool)
    ensures
        yes == same_path(a@, b@),
{
    if is_rooted(a) != is_rooted(b) {
        return false;
    }
    let x = names_of(a);
    let y = names_of(b);
    assert(deep(x@).len() == x@.len() && deep(y@).len() == y@.len());
    if x.len() != y.len() {
        return false;
    }
    let yes = leads(&x, &y);
    assert(yes == (deep(x@) == deep(y@))) by {
        if yes {
            assert(deep(y@).take(deep(x@).len() as int) =~= deep(y@));
            assert(deep(y@).subrange(0, deep(x@).len() as int) =~= deep(y@));
        }
    }
    yes
}

fn kind_of(n: &Vec<char>) -> (k: u8)
    ensures
        k == name_kind(n@),
{
    let here = n.len() == 1 && n[0] == '.';
    let up = n.len() == 2 && n[0] == '.' && n[1] == '.';
    assert(here == (n@ =~= seq!['.']));
    assert(up == (n@ =~= seq!['.', '.']));
    if here {
        0
    } else if up {
        1
    } else {
        2
    }
}

/// Whether one path comes before another.
pub fn is_before(a: &str, b: &str) -> (yes: bool)
    ensures
        yes == path_before(a@, b@),
{
    let ra = is_rooted(a);
    if ra != is_rooted(b) {
        return ra;
    }
    let x = names_of(a);
    let y = names_of(b);
    let ghost dx = deep(x@);
    let ghost dy = deep(y@);
    let mut i: usize = 0;
    assert(dx.skip(0) =~= dx && dy.skip(0) =~= dy);
    while i < x.len() && i < y.len()
        invariant
            i <= x@.len(),
            i <= y@.len(),
            dx == deep(x@),
            dy == deep(y@),
            names_before(dx, dy) == names_before(dx.skip(i as int), dy.skip(i as int)),
        ensures
            i <= x@.len(),
            i <= y@.len(),
            i == x@.len() || i == y@.len() || dx[i as int] != dy[i as int],
            names_before(dx, dy) == names_before(dx.skip(i as int), dy.skip(i as int)),
        decreases x@.len() - i,
    {
        assert(dx[i as int] == x@[i as int]@ && dy[i as int] == y@[i as int]@);
        if !same_line(&x[i], &y[i]) {
            break;
        }
        assert(dx.skip(i as int).skip(1) =~= dx.skip(i + 1));
        assert(dy.skip(i as int).skip(1) =~= dy.skip(i + 1));
        i = i + 1;
    }
    if i >= y.len() {
        return false;
    }
    if i >= x.len() {
        return true;
    }
    assert(dx[i as int] == x@[i as int]@ && dy[i as int] == y@[i as int]@);
    let kx = kind_of(&x[i]);
    let ky = kind_of(&y[i]);
    if kx != ky {
        kx < ky
    } else {
        assert(x@[i as int]@.skip(0) =~= x@[i as int]@);
        assert(y@[i as int]@.skip(0) =~= y@[i as int]@);
        comes_before(&x[i], 0, &y[i], 0)
    }
}

// ---------------------------------------------------------------------------
// Parts, as they are written
// ---------------------------------------------------------------------------

/// The last of the first `n` pieces of a path that is one of its names.
pub open spec fn last_kept(pieces: Seq<Seq<char>>, n: int) -> Option<int>
    decreases n,
{
    if n <= 0 {
        None
    } else if is_name(pieces, n - 1) {
        Some(n - 1)
    } else {
        last_kept(pieces, n - 1)
    }
}

/// Where the `k`th piece of a path begins.
pub open spec fn piece_start(pieces: Seq<Seq<char>>, k: int) -> int
    decreases k,
{
    if k <= 0 { 0 } else { piece_start(pieces, k - 1) + pieces[k - 1].len() + 1 }
}

/// The path without its last name, as far as it is written. A path without
/// names has none.
pub open spec fn above(p: Seq<char>) -> Option<Seq<char>> {
    let pieces = cut(p, '/');
    match last_kept(pieces, pieces.len() as int) {
        None => None,
        Some(k) => match last_kept(pieces, k) {
            Some(j) => Some(p.take(piece_start(pieces, j) + pieces[j].len())),
            None => if rooted(p) { Some(seq!['/']) } else { Some(Seq::empty()) },
        },
    }
}

/// The path without what comes after the last dot of its name, and without
/// anything after its name.
pub open spec fn unsuffixed(p: Seq<char>) -> Seq<char> {
    let pieces = cut(p, '/');
    match (last_name(p), last_kept(pieces, pieces.len() as int)) {
        (Some(name), Some(k)) => p.take(piece_start(pieces, k) + stem_of(name).len()),
        _ => p,
    }
}

proof fn lemma_pieces(p: Seq<char>)
    ensures
        ({
            let pieces = cut(p, '/');
            &&& pieces.len() > 0
            &&& piece_start(pieces, pieces.len() - 1) + pieces.last().len() == p.len()
        }),
    decreases p.len(),
{
    lemma_cut_some(p, '/');
    if p.len() > 0 {
        let less = cut(p.drop_last(), '/');
        lemma_pieces(p.drop_last());
        let pieces = cut(p, '/');
        lemma_same_starts(less, pieces, less.len() - 1);
        if p.last() == '/' {
            assert(pieces =~= less.push(Seq::empty()));
            assert(pieces[less.len() - 1] == less.last());
        } else {
            assert(pieces.last() == less.last().push(p.last()));
        }
    }
}

proof fn lemma_same_starts(a: Seq<Seq<char>>, b: Seq<Seq<char>>, k: int)
    requires
        0 <= k,
        forall|i: int| 0 <= i < k ==> (#[trigger] a[i]) == b[i],
    ensures
        piece_start(a, k) == piece_start(b, k),
    decreases k,
{
    if k > 0 {
        lemma_same_starts(a, b, k - 1);
    }
}

proof fn lemma_piece_within(pieces: Seq<Seq<char>>, k: int, n: int)
    requires
        0 <= k <= n,
    ensures
        0 <= piece_start(pieces, k) <= piece_start(pieces, n),
        k < n ==> piece_start(pieces, k) + pieces[k].len() < piece_start(pieces, n),
    decreases n,
{
    if k < n {
        lemma_piece_within(pieces, k, n - 1);
    } else if n > 0 {
        lemma_piece_within(pieces, n - 1, n - 1);
    }
}

fn find_kept(pieces: &Vec<Vec<char>>, n: usize) -> (r: Option<usize>)
    requires
        n <= pieces@.len(),
    ensures
        match last_kept(deep(pieces@), n as int) {
            Some(k) => r == Some(k as usize) && 0 <= k < n,
            None => r is None,
        },
{
    let mut i: usize = n;
    while i > 0
        invariant
            i <= n <= pieces@.len(),
            last_kept(deep(pieces@), n as int) == last_kept(deep(pieces@), i as int),
        decreases i,
    {
        let one = &pieces[i - 1];
        assert(deep(pieces@)[i - 1] == one@);
        let dot = one.len() == 1 && one[0] == '.';
        assert(dot == (one@ =~= seq!['.']));
        if one.len() > 0 && (!dot || i == 1) {
            return Some(i - 1);
        }
        i = i - 1;
    }
    None
}

fn find_start(pieces: &Vec<Vec<char>>, k: usize, Ghost(len): Ghost<int>) -> (at: usize)
    requires
        k < pieces@.len(),
        piece_start(deep(pieces@), pieces@.len() - 1) + deep(pieces@).last().len() == len,
        len <= usize::MAX,
    ensures
        at == piece_start(deep(pieces@), k as int),
        at + pieces@[k as int]@.len() <= len,
{
    let ghost ds = deep(pieces@);
    let mut at: usize = 0;
    let mut i: usize = 0;
    while i < k
        invariant
            i <= k < pieces@.len(),
            ds == deep(pieces@),
            at == piece_start(ds, i as int),
            piece_start(ds, pieces@.len() - 1) <= len <= usize::MAX,
        decreases k - i,
    {
        assert(ds[i as int] == pieces@[i as int]@);
        proof {
            lemma_piece_within(ds, i as int, pieces@.len() - 1);
        }
        at = at + pieces[i].len() + 1;
        i = i + 1;
    }
    proof {
        assert(ds[k as int] == pieces@[k as int]@);
        lemma_piece_within(ds, k as int, pieces@.len() - 1);
    }
    at
}

/// The path without its last name.
pub fn parent(p: &str) -> (r: Option<String>)
    ensures
        match above(p@) {
            Some(up) => r is Some && r->0@ == up,
            None => r is None,
        },
{
    let v = chars_of(p);
    let len = v.len();
    let pieces = cut_at(&v, '/');
    proof {
        lemma_pieces(v@);
        assert(deep(pieces@).len() == pieces@.len());
    }
    match find_kept(&pieces, pieces.len()) {
        None => None,
        Some(k) => match find_kept(&pieces, k) {
            Some(j) => {
                let at = find_start(&pieces, j, Ghost(len as int));
                assert(deep(pieces@)[j as int] == pieces@[j as int]@);
                let end = at + pieces[j].len();
                assert(v@.take(end as int) =~= v@.subrange(0, end as int));
                Some(string_of(&v, 0, end))
            },
            None => {
                let mut s: String = String::new();
                if is_rooted(p) {
                    s.push('/');
                    assert(s@ =~= seq!['/']);
                } else {
                    assert(s@ =~= Seq::<char>::empty());
                }
                Some(s)
            },
        },
    }
}

proof fn lemma_kept_is_last(pieces: Seq<Seq<char>>, n: int)
    requires
        0 <= n <= pieces.len(),
    ensures
        match last_kept(pieces, n) {
            Some(k) => names_among(pieces, n).len() > 0 && names_among(pieces, n).last()
                == pieces[k] && 0 <= k < n,
            None => names_among(pieces, n).len() == 0,
        },
    decreases n,
{
    if n > 0 {
        lemma_kept_is_last(pieces, n - 1);
    }
}

/// The path without what comes after the last dot of its name.
pub fn without_extension(p: &str) -> (r: String)
    ensures
        r@ == unsuffixed(p@),
{
    let v = chars_of(p);
    let len = v.len();
    let pieces = cut_at(&v, '/');
    proof {
        lemma_pieces(v@);
        assert(deep(pieces@).len() == pieces@.len());
        lemma_kept_is_last(deep(pieces@), pieces@.len() as int);
    }
    match stem(p) {
        Some(stem) => match find_kept(&pieces, pieces.len()) {
            Some(k) => {
                assert(deep(pieces@)[k as int] == pieces@[k as int]@);
                proof {
                    lemma_stem(pieces@[k as int]@);
                }
                let at = find_start(&pieces, k, Ghost(len as int));
                let end = at + stem.len();
                assert(v@.take(end as int) =~= v@.subrange(0, end as int));
                string_of(&v, 0, end)
            },
            None => p.to_owned(),
        },
        None => p.to_owned(),
    }
}

proof fn lemma_stem(name: Seq<char>)
    ensures
        stem_of(name).len() <= name.len(),
{
    lemma_last_of(name, '.');
}

proof fn lemma_last_of(s: Seq<char>, c: char)
    ensures
        match last_of(s, c) {
            Some(i) => 0 <= i < s.len(),
            None => true,
        },
    decreases s.len(),
{
    if s.len() > 0 {
        lemma_last_of(s.drop_last(), c);
    }
}

// ---------------------------------------------------------------------------
// Everything above
// ---------------------------------------------------------------------------

proof fn lemma_last_kept(pieces: Seq<Seq<char>>, n: int)
    requires
        0 <= n <= pieces.len(),
    ensures
        match last_kept(pieces, n) {
            Some(k) => 0 <= k < n && is_name(pieces, k),
            None => true,
        },
    decreases n,
{
    if n > 0 && !is_name(pieces, n - 1) {
        lemma_last_kept(pieces, n - 1);
    }
}

/// What is above a path is shorter than it.
pub proof fn lemma_above_is_shorter(p: Seq<char>)
    ensures
        match above(p) {
            Some(q) => q.len() < p.len(),
            None => true,
        },
{
    let pieces = cut(p, '/');
    let last = pieces.len() - 1;
    lemma_pieces(p);
    lemma_last_kept(pieces, pieces.len() as int);
    if let Some(k) = last_kept(pieces, pieces.len() as int) {
        lemma_piece_within(pieces, k, last);
        lemma_last_kept(pieces, k);
        if let Some(j) = last_kept(pieces, k) {
            lemma_piece_within(pieces, j, k);
            assert(piece_start(pieces, j) + pieces[j].len() < p.len());
        } else if rooted(p) {
            lemma_rooted_first(p);
            assert(pieces[0].len() == 0);
            assert(k > 0);
            lemma_piece_within(pieces, 0, k);
        }
    }
}

proof fn lemma_rooted_first(p: Seq<char>)
    requires
        rooted(p),
    ensures
        cut(p, '/')[0].len() == 0,
        cut(p, '/').len() > 1,
    decreases p.len(),
{
    lemma_cut_some(p.drop_last(), '/');
    if p.len() > 1 {
        assert(p.drop_last()[0] == p[0]);
        lemma_rooted_first(p.drop_last());
    } else {
        assert(p.drop_last() =~= Seq::<char>::empty());
    }
}

/// A path and everything above it, the nearest first.
pub open spec fn ancestry(p: Seq<char>) -> Seq<Seq<char>>
    decreases p.len(),
    via ancestry_ends
{
    match above(p) {
        Some(q) => seq![p] + ancestry(q),
        None => seq![p],
    }
}

#[via_fn]
proof fn ancestry_ends(p: Seq<char>) {
    lemma_above_is_shorter(p);
}

/// A path and everything above it, the nearest first.
pub fn ancestors(p: &str) -> (v: Vec<String>)
    ensures
        texts(v@) == ancestry(p@),
{
    let mut v: Vec<String> = Vec::new();
    let mut at = p.to_owned();
    let mut more = true;
    assert(texts(v@) + ancestry(at@) =~= ancestry(p@));
    while more
        invariant
            more ==> texts(v@) + ancestry(at@) == ancestry(p@),
            !more ==> texts(v@) == ancestry(p@),
        decreases at@.len() + if more { 1int } else { 0 },
    {
        let ghost had = v@;
        let ghost here = at@;
        proof {
            lemma_above_is_shorter(here);
        }
        let next = parent(at.as_str());
        v.push(at.clone());
        assert(texts(v@) =~= texts(had).push(here));
        match next {
            Some(q) => {
                assert(texts(had) + (seq![here] + ancestry(q@)) =~= texts(v@) + ancestry(q@));
                at = q;
            },
            None => {
                assert(texts(had) + seq![here] =~= texts(v@));
                more = false;
            },
        }
    }
    v
}

/// Whether a path is among others.
pub open spec fn among(ps: Seq<Seq<char>>, path: Seq<char>) -> bool {
    exists|i: int| 0 <= i < ps.len() && same_path(#[trigger] ps[i], path)
}

/// Whether a path is among others.
pub(crate) fn is_among(ps: &Vec<String>, path: &str) -> (yes: bool)
    ensures
        yes == among(texts(ps@), path@),
{
    let ghost ts = texts(ps@);
    let mut i: usize = 0;
    while i < ps.len()
        invariant
            i <= ps@.len(),
            ts == texts(ps@),
            forall|k: int| 0 <= k < i ==> !same_path(#[trigger] ts[k], path@),
        decreases ps@.len() - i,
    {
        assert(ts[i as int] == ps@[i as int]@);
        if is_same(ps[i].as_str(), path) {
            return true;
        }
        i = i + 1;
    }
    false
}

} // verus!
