//! The keys that are bound to commands: those that the editor comes with, those
//! that plugins would like, and those that somebody chose.
use vstd::prelude::*;

use crate::chars::{debug_text, debugged, same};
use crate::cmd::Cmd;
use crate::keys::{keystroke, shown, Key};
use crate::scheme::{row, shipped, SHIPPED};
use crate::strings::texts;

verus! {

/// The bindings in force, each key once, in the order in which they were
/// bound.
#[derive(Debug)]
pub struct Keys {
    pub bound: Vec<(Key, Cmd)>,
    /// What could not be bound, worth one complaint each.
    pub problems: Vec<String>,
}

/// The bindings in force, and what could not be bound.
#[verifier::ext_equal]
pub ghost struct Bound {
    pub keys: Seq<(Key, Cmd)>,
    pub problems: Seq<Seq<char>>,
}

impl View for Keys {
    type V = Bound;

    open spec fn view(&self) -> Bound {
        Bound { keys: self.bound@, problems: texts(self.problems@) }
    }
}

/// The place of a key, or the end.
pub open spec fn key_place(bs: Seq<(Key, Cmd)>, key: Key, i: int) -> int
    decreases bs.len() - i,
{
    if 0 <= i < bs.len() && bs[i].0 != key { key_place(bs, key, i + 1) } else { i }
}

/// What a key does.
pub open spec fn done_by(bs: Seq<(Key, Cmd)>, key: Key) -> Option<Cmd> {
    let at = key_place(bs, key, 0);
    if at < bs.len() { Some(bs[at].1) } else { None }
}

/// The keys among the first `n` that reach a command.
pub open spec fn reaching(bs: Seq<(Key, Cmd)>, cmd: Cmd, n: int) -> Seq<Key>
    decreases n,
{
    if n <= 0 {
        Seq::empty()
    } else if bs[n - 1].1 == cmd {
        reaching(bs, cmd, n - 1).push(bs[n - 1].0)
    } else {
        reaching(bs, cmd, n - 1)
    }
}

/// The bindings among the first `n` that are not of a command.
pub open spec fn not_reaching(bs: Seq<(Key, Cmd)>, cmd: Cmd, n: int) -> Seq<(Key, Cmd)>
    decreases n,
{
    if n <= 0 {
        Seq::empty()
    } else if bs[n - 1].1 == cmd {
        not_reaching(bs, cmd, n - 1)
    } else {
        not_reaching(bs, cmd, n - 1).push(bs[n - 1])
    }
}

/// Bindings with a key bound, which is then the last. Whatever it did before it
/// does no more.
pub open spec fn with_key(bs: Seq<(Key, Cmd)>, key: Key, cmd: Cmd) -> Seq<(Key, Cmd)> {
    let at = key_place(bs, key, 0);
    (if at < bs.len() { bs.remove(at) } else { bs }).push((key, cmd))
}

/// Bindings with a key bound that was going spare.
pub open spec fn with_spare(bs: Seq<(Key, Cmd)>, key: Key, cmd: Cmd) -> Seq<(Key, Cmd)> {
    if done_by(bs, key) is Some { bs } else { with_key(bs, key, cmd) }
}

/// With one more problem.
pub open spec fn complaining(b: Bound, why: Seq<char>) -> Bound {
    Bound { problems: b.problems.push(why), ..b }
}

/// With a key bound that a text writes. One that writes none is a problem, in
/// which it is quoted before the given words.
pub open spec fn with_text(b: Bound, text: Seq<char>, cmd: Cmd, words: Seq<char>) -> Bound {
    match keystroke(text) {
        Some(key) => Bound { keys: with_key(b.keys, key, cmd), ..b },
        None => complaining(b, debug_text(text) + words),
    }
}

/// With what may be a further key bound.
pub open spec fn with_maybe(b: Bound, text: Option<Seq<char>>, cmd: Cmd) -> Bound {
    match text {
        Some(text) => with_text(b, text, cmd, " is not a key (built in)"@),
        None => b,
    }
}

/// The first `n` commands that come with keys, bound to them.
pub open spec fn built(n: int) -> Bound
    decreases n,
{
    if n <= 0 {
        Bound { keys: Seq::empty(), problems: Seq::empty() }
    } else {
        let r = row((n - 1) as u8);
        let one = with_text(built(n - 1), r.first, r.cmd, " is not a key (built in)"@);
        with_maybe(with_maybe(one, r.second, r.cmd), r.third, r.cmd)
    }
}

/// The command of a name.
pub open spec fn command_named(commands: Seq<(String, Cmd)>, name: Seq<char>, i: int) -> Option<Cmd>
    decreases commands.len() - i,
{
    if i < 0 || i >= commands.len() {
        None
    } else if commands[i].0@ == name {
        Some(commands[i].1)
    } else {
        command_named(commands, name, i + 1)
    }
}

/// With the first `n` keys that a plugin would like for a command, those that
/// are spare.
pub open spec fn with_wishes(
    b: Bound,
    id: Seq<char>,
    wishes: Seq<Seq<char>>,
    cmd: Cmd,
    n: int,
) -> Bound
    decreases n,
{
    if n <= 0 {
        b
    } else {
        let less = with_wishes(b, id, wishes, cmd, n - 1);
        match keystroke(wishes[n - 1]) {
            Some(key) => Bound { keys: with_spare(less.keys, key, cmd), ..less },
            None => complaining(less, id + ": "@ + debug_text(wishes[n - 1]) + " is not a key"@),
        }
    }
}

/// With what a plugin would like for the first `n` commands that it names.
pub open spec fn with_plugin(
    b: Bound,
    id: Seq<char>,
    wishes: Seq<(String, Vec<String>)>,
    commands: Seq<(String, Cmd)>,
    n: int,
) -> Bound
    decreases n,
{
    if n <= 0 {
        b
    } else {
        let less = with_plugin(b, id, wishes, commands, n - 1);
        let name = wishes[n - 1].0@;
        let keys = texts(wishes[n - 1].1@);
        match command_named(commands, name, 0) {
            Some(cmd) => with_wishes(less, id, keys, cmd, keys.len() as int),
            None => complaining(
                less,
                id + ": there is no command called "@ + debug_text(name),
            ),
        }
    }
}

/// What a plugin would like bound, by the names of commands.
#[derive(Debug)]
pub struct Wishes {
    pub id: String,
    pub keys: Vec<(String, Vec<String>)>,
}

/// With what the first `n` plugins would like.
pub open spec fn with_plugins(
    b: Bound,
    plugins: Seq<Wishes>,
    commands: Seq<(String, Cmd)>,
    n: int,
) -> Bound
    decreases n,
{
    if n <= 0 {
        b
    } else {
        let p = plugins[n - 1];
        with_plugin(
            with_plugins(b, plugins, commands, n - 1),
            p.id@,
            p.keys@,
            commands,
            p.keys@.len() as int,
        )
    }
}

/// With the first `n` keys that somebody chose for a command.
pub open spec fn with_choices(b: Bound, choices: Seq<Seq<char>>, cmd: Cmd, n: int) -> Bound
    decreases n,
{
    if n <= 0 {
        b
    } else {
        with_text(with_choices(b, choices, cmd, n - 1), choices[n - 1], cmd, " is not a key"@)
    }
}

/// With what somebody chose for the first `n` commands that they name. Naming a
/// command takes back every key it had.
pub open spec fn with_overrides(
    b: Bound,
    overrides: Seq<(String, Vec<String>)>,
    commands: Seq<(String, Cmd)>,
    n: int,
) -> Bound
    decreases n,
{
    if n <= 0 {
        b
    } else {
        let less = with_overrides(b, overrides, commands, n - 1);
        let name = overrides[n - 1].0@;
        let keys = texts(overrides[n - 1].1@);
        match command_named(commands, name, 0) {
            Some(cmd) => with_choices(
                Bound { keys: not_reaching(less.keys, cmd, less.keys.len() as int), ..less },
                keys,
                cmd,
                keys.len() as int,
            ),
            None => complaining(less, "there is no command called "@ + debug_text(name)),
        }
    }
}

fn find_command(commands: &Vec<(String, Cmd)>, name: &str) -> (r: Option<Cmd>)
    ensures
        r == command_named(commands@, name@, 0),
{
    let mut i: usize = 0;
    while i < commands.len()
        invariant
            i <= commands@.len(),
            command_named(commands@, name@, 0) == command_named(commands@, name@, i as int),
        decreases commands@.len() - i,
    {
        if same(commands[i].0.as_str(), name) {
            return Some(commands[i].1);
        }
        i = i + 1;
    }
    None
}

/// The keys that ship: what `Keys::new` makes where no plugin and no settings ask
/// for any.
impl Default for Keys {
    fn default() -> (k: Keys)
        ensures
            k@ == built(SHIPPED as int),
    {
        Keys::built_in()
    }
}

impl Keys {
    fn find(&self, key: Key) -> (at: usize)
        ensures
            at == key_place(self@.keys, key, 0),
            at <= self.bound@.len(),
    {
        let mut at: usize = 0;
        while at < self.bound.len() && self.bound[at].0 != key
            invariant
                at <= self.bound@.len(),
                key_place(self.bound@, key, 0) == key_place(self.bound@, key, at as int),
            decreases self.bound@.len() - at,
        {
            at = at + 1;
        }
        at
    }

    /// Bind a key. It belongs to whoever asked last.
    pub fn bind(&mut self, key: Key, cmd: Cmd)
        ensures
            final(self)@ == (Bound { keys: with_key(old(self)@.keys, key, cmd), ..old(self)@ }),
    {
        let at = self.find(key);
        if at < self.bound.len() {
            self.bound.remove(at);
        }
        self.bound.push((key, cmd));
    }

    /// Bind a key only if it is going spare.
    pub fn suggest(&mut self, key: Key, cmd: Cmd)
        ensures
            final(self)@ == (Bound { keys: with_spare(old(self)@.keys, key, cmd), ..old(self)@ }),
    {
        let at = self.find(key);
        if at >= self.bound.len() {
            self.bind(key, cmd);
        }
    }

    /// Take back every key that a command has.
    fn unbind(&mut self, cmd: Cmd)
        ensures
            final(self)@ == (Bound {
                keys: not_reaching(old(self)@.keys, cmd, old(self)@.keys.len() as int),
                ..old(self)@
            }),
    {
        let ghost bs = self.bound@;
        let mut kept: Vec<(Key, Cmd)> = Vec::new();
        let mut n: usize = 0;
        while n < self.bound.len()
            invariant
                n <= self.bound@.len(),
                bs == self.bound@,
                kept@ == not_reaching(bs, cmd, n as int),
                self.problems == old(self).problems,
            decreases self.bound@.len() - n,
        {
            if self.bound[n].1 != cmd {
                kept.push(self.bound[n]);
            }
            n = n + 1;
        }
        self.bound = kept;
    }

    fn complain(&mut self, why: String)
        ensures
            final(self)@ == complaining(old(self)@, why@),
    {
        let ghost was = self@;
        let ghost had = self.problems@;
        let ghost is = why@;
        self.problems.push(why);
        assert(texts(self.problems@) =~= texts(had).push(is));
        assert(self@ =~= complaining(was, is));
    }

    fn bind_text(&mut self, text: &str, cmd: Cmd, words: &str)
        ensures
            final(self)@ == with_text(old(self)@, text@, cmd, words@),
    {
        match Key::parse(text) {
            Some(key) => self.bind(key, cmd),
            None => {
                let mut why = debugged(text);
                why.append(words);
                self.complain(why);
            },
        }
    }

    fn bind_maybe(&mut self, text: Option<&'static str>, cmd: Cmd)
        ensures
            final(self)@ == with_maybe(old(self)@, crate::scheme::maybe_str(text), cmd),
    {
        if let Some(text) = text {
            self.bind_text(text, cmd, " is not a key (built in)");
        }
    }

    /// Just the keys that the editor comes with, with nothing on top of them.
    pub fn built_in() -> (k: Keys)
        ensures
            k@ == built(SHIPPED as int),
    {
        let mut k = Keys { bound: Vec::new(), problems: Vec::new() };
        assert(k@ =~= built(0));
        let mut n: u8 = 0;
        while n < SHIPPED
            invariant
                n <= SHIPPED,
                k@ == built(n as int),
            decreases SHIPPED - n,
        {
            let s = shipped(n);
            k.bind_text(s.first, s.cmd, " is not a key (built in)");
            k.bind_maybe(s.second, s.cmd);
            k.bind_maybe(s.third, s.cmd);
            n = n + 1;
            assert((n - 1) as u8 == n as int - 1);
        }
        k
    }

    /// The keys that the editor comes with; on top of those what the plugins
    /// would like, where it is going spare; and on top of that what somebody
    /// chose, by the name of a command, which replaces every key it had.
    /// `commands` holds the names that there are.
    pub fn new(
        plugins: &Vec<Wishes>,
        overrides: &Vec<(String, Vec<String>)>,
        commands: &Vec<(String, Cmd)>,
    ) -> (k: Keys)
        ensures
            k@ == with_overrides(
                with_plugins(built(SHIPPED as int), plugins@, commands@, plugins@.len() as int),
                overrides@,
                commands@,
                overrides@.len() as int,
            ),
    {
        let mut k = Keys::built_in();
        let ghost base = k@;
        let mut n: usize = 0;
        while n < plugins.len()
            invariant
                n <= plugins@.len(),
                k@ == with_plugins(base, plugins@, commands@, n as int),
            decreases plugins@.len() - n,
        {
            k.take_wishes(&plugins[n], commands);
            n = n + 1;
        }
        let ghost wished = k@;
        let mut m: usize = 0;
        while m < overrides.len()
            invariant
                m <= overrides@.len(),
                k@ == with_overrides(wished, overrides@, commands@, m as int),
            decreases overrides@.len() - m,
        {
            match find_command(commands, overrides[m].0.as_str()) {
                Some(cmd) => {
                    k.unbind(cmd);
                    k.take_choices(&overrides[m].1, cmd);
                },
                None => {
                    let mut why = "there is no command called ".to_owned();
                    why.append(debugged(overrides[m].0.as_str()).as_str());
                    k.complain(why);
                },
            }
            m = m + 1;
        }
        k
    }

    fn take_choices(&mut self, choices: &Vec<String>, cmd: Cmd)
        ensures
            final(self)@ == with_choices(
                old(self)@,
                texts(choices@),
                cmd,
                choices@.len() as int,
            ),
    {
        let ghost was = self@;
        let ghost ts = texts(choices@);
        let mut n: usize = 0;
        while n < choices.len()
            invariant
                n <= choices@.len(),
                ts == texts(choices@),
                self@ == with_choices(was, ts, cmd, n as int),
            decreases choices@.len() - n,
        {
            assert(ts[n as int] == choices@[n as int]@);
            self.bind_text(choices[n].as_str(), cmd, " is not a key");
            n = n + 1;
        }
    }

    fn take_keys(&mut self, id: &str, wishes: &Vec<String>, cmd: Cmd)
        ensures
            final(self)@ == with_wishes(
                old(self)@,
                id@,
                texts(wishes@),
                cmd,
                wishes@.len() as int,
            ),
    {
        let ghost was = self@;
        let ghost ts = texts(wishes@);
        let mut n: usize = 0;
        while n < wishes.len()
            invariant
                n <= wishes@.len(),
                ts == texts(wishes@),
                self@ == with_wishes(was, id@, ts, cmd, n as int),
            decreases wishes@.len() - n,
        {
            assert(ts[n as int] == wishes@[n as int]@);
            match Key::parse(wishes[n].as_str()) {
                Some(key) => self.suggest(key, cmd),
                None => {
                    let mut why = id.to_owned();
                    why.append(": ");
                    why.append(debugged(wishes[n].as_str()).as_str());
                    why.append(" is not a key");
                    self.complain(why);
                },
            }
            n = n + 1;
        }
    }

    fn take_wishes(&mut self, plugin: &Wishes, commands: &Vec<(String, Cmd)>)
        ensures
            final(self)@ == with_plugin(
                old(self)@,
                plugin.id@,
                plugin.keys@,
                commands@,
                plugin.keys@.len() as int,
            ),
    {
        let ghost was = self@;
        let mut n: usize = 0;
        while n < plugin.keys.len()
            invariant
                n <= plugin.keys@.len(),
                self@ == with_plugin(was, plugin.id@, plugin.keys@, commands@, n as int),
            decreases plugin.keys@.len() - n,
        {
            match find_command(commands, plugin.keys[n].0.as_str()) {
                Some(cmd) => self.take_keys(plugin.id.as_str(), &plugin.keys[n].1, cmd),
                None => {
                    let mut why = plugin.id.clone();
                    why.append(": there is no command called ");
                    why.append(debugged(plugin.keys[n].0.as_str()).as_str());
                    self.complain(why);
                },
            }
            n = n + 1;
        }
    }

    /// What a keystroke does, if anything.
    pub fn lookup(&self, key: Key) -> (r: Option<Cmd>)
        ensures
            r == done_by(self@.keys, key),
    {
        let at = self.find(key);
        if at < self.bound.len() {
            Some(self.bound[at].1)
        } else {
            None
        }
    }

    /// The keys that reach a command, best first.
    pub fn keys_for(&self, cmd: Cmd) -> (v: Vec<Key>)
        ensures
            v@ == reaching(self@.keys, cmd, self@.keys.len() as int),
    {
        let mut v: Vec<Key> = Vec::new();
        let mut n: usize = 0;
        while n < self.bound.len()
            invariant
                n <= self.bound@.len(),
                v@ == reaching(self.bound@, cmd, n as int),
            decreases self.bound@.len() - n,
        {
            if self.bound[n].1 == cmd {
                v.push(self.bound[n].0);
            }
            n = n + 1;
        }
        v
    }

    /// The one key to show beside a command in a list.
    pub fn shortcut(&self, cmd: Cmd) -> (r: Option<String>)
        ensures
            ({
                let keys = reaching(self@.keys, cmd, self@.keys.len() as int);
                match r {
                    Some(s) => keys.len() > 0 && s@ == shown(keys[0]),
                    None => keys.len() == 0,
                }
            }),
    {
        let keys = self.keys_for(cmd);
        if keys.len() > 0 {
            Some(keys[0].show())
        } else {
            None
        }
    }
}

// ---------------------------------------------------------------------------
// What holds of bindings
// ---------------------------------------------------------------------------

/// Whether every key is bound once.
pub open spec fn distinct(bs: Seq<(Key, Cmd)>) -> bool {
    forall|i: int, j: int|
        0 <= i < j < bs.len() ==> (#[trigger] bs[i]).0 != (#[trigger] bs[j]).0
}

proof fn lemma_key_place(bs: Seq<(Key, Cmd)>, key: Key, i: int)
    requires
        0 <= i <= bs.len(),
    ensures
        ({
            let at = key_place(bs, key, i);
            &&& i <= at <= bs.len()
            &&& at < bs.len() ==> bs[at].0 == key
            &&& forall|k: int| i <= k < at ==> (#[trigger] bs[k]).0 != key
        }),
    decreases bs.len() - i,
{
    if i < bs.len() && bs[i].0 != key {
        lemma_key_place(bs, key, i + 1);
    }
}

/// Binding a key keeps every key bound once, gives the key to the command that
/// asked, and leaves every other key to what it did.
pub proof fn law_a_key_belongs_to_who_asked_last(bs: Seq<(Key, Cmd)>, key: Key, cmd: Cmd, other: Key)
    requires
        distinct(bs),
        other != key,
    ensures
        distinct(with_key(bs, key, cmd)),
        done_by(with_key(bs, key, cmd), key) == Some(cmd),
        done_by(with_key(bs, key, cmd), other) == done_by(bs, other),
{
    lemma_key_place(bs, key, 0);
    let at = key_place(bs, key, 0);
    let rest = if at < bs.len() { bs.remove(at) } else { bs };
    let more = rest.push((key, cmd));
    assert forall|k: int| 0 <= k < rest.len() implies (#[trigger] rest[k]).0 != key by {
        if at < bs.len() {
            if k < at {
                assert(rest[k] == bs[k]);
            } else {
                assert(rest[k] == bs[k + 1]);
                assert(bs[at].0 != bs[k + 1].0);
            }
        }
    }
    assert(distinct(more)) by {
        assert forall|i: int, j: int| 0 <= i < j < more.len() implies (#[trigger] more[i]).0 != (
        #[trigger] more[j]).0 by {
            if j < rest.len() {
                let bi = if at < bs.len() && i >= at { i + 1 } else { i };
                let bj = if at < bs.len() && j >= at { j + 1 } else { j };
                assert(more[i] == bs[bi] && more[j] == bs[bj]);
            } else {
                assert(more[i] == rest[i]);
            }
        }
    }
    lemma_key_place(more, key, 0);
    lemma_done(more, key, cmd, rest.len() as int);
    lemma_key_place(bs, other, 0);
    let there = key_place(bs, other, 0);
    if there < bs.len() {
        let now = if at < bs.len() && there > at { there - 1 } else { there };
        assert(more[now] == bs[there]);
        lemma_done(more, other, bs[there].1, now);
    } else {
        lemma_key_place(more, other, 0);
        let found = key_place(more, other, 0);
        if found < more.len() {
            if found < rest.len() {
                let was = if at < bs.len() && found >= at { found + 1 } else { found };
                assert(more[found] == bs[was]);
                assert(bs[was].0 != other);
            }
        }
    }
}

proof fn lemma_done(bs: Seq<(Key, Cmd)>, key: Key, cmd: Cmd, k: int)
    requires
        distinct(bs),
        0 <= k < bs.len(),
        bs[k] == (key, cmd),
    ensures
        done_by(bs, key) == Some(cmd),
{
    lemma_key_place(bs, key, 0);
    let at = key_place(bs, key, 0);
    if at < k {
        assert(bs[at].0 != bs[k].0);
    }
}

/// A plugin cannot take a key that was already doing something.
pub proof fn law_a_plugin_takes_no_key(bs: Seq<(Key, Cmd)>, key: Key, cmd: Cmd, taken: Key)
    requires
        distinct(bs),
        done_by(bs, taken) is Some,
    ensures
        distinct(with_spare(bs, key, cmd)),
        done_by(with_spare(bs, key, cmd), taken) == done_by(bs, taken),
        done_by(bs, key) is None ==> done_by(with_spare(bs, key, cmd), key) == Some(cmd),
{
    if taken != key {
        law_a_key_belongs_to_who_asked_last(bs, key, cmd, taken);
    }
}

/// Once every key of a command is taken back, no key does it, and every key that
/// does something else still does.
pub proof fn law_naming_a_command_takes_back_its_keys(bs: Seq<(Key, Cmd)>, cmd: Cmd, key: Key)
    requires
        distinct(bs),
    ensures
        distinct(not_reaching(bs, cmd, bs.len() as int)),
        done_by(not_reaching(bs, cmd, bs.len() as int), key) == if done_by(bs, key) == Some(cmd) {
            None
        } else {
            done_by(bs, key)
        },
{
    let n = bs.len() as int;
    let rest = not_reaching(bs, cmd, n);
    lemma_kept_distinct(bs, cmd, n);
    lemma_key_place(bs, key, 0);
    lemma_key_place(rest, key, 0);
    let at = key_place(bs, key, 0);
    let found = key_place(rest, key, 0);
    if at < bs.len() && bs[at].1 != cmd {
        let k = lemma_kept(bs, cmd, n, at);
        lemma_done(rest, key, bs[at].1, k);
    } else if found < rest.len() {
        let k = lemma_was_there(bs, cmd, n, found);
        lemma_done(bs, key, bs[k].1, k);
    }
}

/// Where a binding that is kept was.
proof fn lemma_was_there(bs: Seq<(Key, Cmd)>, cmd: Cmd, n: int, i: int) -> (k: int)
    requires
        0 <= n <= bs.len(),
        0 <= i < not_reaching(bs, cmd, n).len(),
    ensures
        0 <= k < n,
        bs[k] == not_reaching(bs, cmd, n)[i],
        bs[k].1 != cmd,
    decreases n,
{
    let less = not_reaching(bs, cmd, n - 1);
    if i < less.len() {
        lemma_was_there(bs, cmd, n - 1, i)
    } else {
        n - 1
    }
}

/// Where a binding that is of another command is kept.
proof fn lemma_kept(bs: Seq<(Key, Cmd)>, cmd: Cmd, n: int, k: int) -> (i: int)
    requires
        0 <= k < n <= bs.len(),
        bs[k].1 != cmd,
    ensures
        0 <= i < not_reaching(bs, cmd, n).len(),
        not_reaching(bs, cmd, n)[i] == bs[k],
    decreases n,
{
    if k < n - 1 {
        lemma_kept(bs, cmd, n - 1, k)
    } else {
        not_reaching(bs, cmd, n - 1).len() as int
    }
}

proof fn lemma_kept_distinct(bs: Seq<(Key, Cmd)>, cmd: Cmd, n: int)
    requires
        distinct(bs),
        0 <= n <= bs.len(),
    ensures
        distinct(not_reaching(bs, cmd, n)),
    decreases n,
{
    if n > 0 {
        lemma_kept_distinct(bs, cmd, n - 1);
        let less = not_reaching(bs, cmd, n - 1);
        let rest = not_reaching(bs, cmd, n);
        assert forall|i: int, j: int| 0 <= i < j < rest.len() implies (#[trigger] rest[i]).0 != (
        #[trigger] rest[j]).0 by {
            assert(rest[i] == less[i]);
            if j < less.len() {
                assert(rest[j] == less[j]);
            } else {
                let k = lemma_was_there(bs, cmd, n - 1, i);
                assert(bs[k].0 != bs[n - 1].0);
            }
        }
    }
}

/// A key does a command where it is among the keys that reach it, and only
/// there.
pub proof fn law_the_keys_shown_are_the_keys_that_work(bs: Seq<(Key, Cmd)>, cmd: Cmd, key: Key)
    requires
        distinct(bs),
    ensures
        reaching(bs, cmd, bs.len() as int).contains(key) <==> done_by(bs, key) == Some(cmd),
{
    lemma_reaching(bs, cmd, bs.len() as int, key);
    lemma_key_place(bs, key, 0);
    let at = key_place(bs, key, 0);
    if reaching(bs, cmd, bs.len() as int).contains(key) {
        let k = choose|k: int| 0 <= k < bs.len() && #[trigger] bs[k] == (key, cmd);
        lemma_done(bs, key, cmd, k);
    } else if at < bs.len() && bs[at].1 == cmd {
        assert(bs[at] == (key, cmd));
    }
}

proof fn lemma_reaching(bs: Seq<(Key, Cmd)>, cmd: Cmd, n: int, key: Key)
    requires
        0 <= n <= bs.len(),
    ensures
        reaching(bs, cmd, n).contains(key) <==> exists|k: int|
            0 <= k < n && #[trigger] bs[k] == (key, cmd),
    decreases n,
{
    if n > 0 {
        lemma_reaching(bs, cmd, n - 1, key);
        let less = reaching(bs, cmd, n - 1);
        let all = reaching(bs, cmd, n);
        if less.contains(key) {
            let i = choose|i: int| 0 <= i < less.len() && less[i] == key;
            assert(all[i] == key);
            assert(all.contains(key));
        }
        if bs[n - 1] == (key, cmd) {
            assert(all[less.len() as int] == key);
            assert(all.contains(key));
        }
        if all.contains(key) {
            let i = choose|i: int| 0 <= i < all.len() && all[i] == key;
            if i < less.len() {
                assert(less[i] == key);
                assert(less.contains(key));
            } else {
                assert(bs[n - 1] == (key, cmd));
            }
        }
    }
}

proof fn lemma_with_key(bs: Seq<(Key, Cmd)>, key: Key, cmd: Cmd)
    requires
        distinct(bs),
    ensures
        distinct(with_key(bs, key, cmd)),
        distinct(with_spare(bs, key, cmd)),
{
    let code = if key.code is Esc { crate::keys::Code::Tab } else { crate::keys::Code::Esc };
    law_a_key_belongs_to_who_asked_last(bs, key, cmd, Key { code, ..key });
}

proof fn lemma_with_text(b: Bound, text: Seq<char>, cmd: Cmd, words: Seq<char>)
    requires
        distinct(b.keys),
    ensures
        distinct(with_text(b, text, cmd, words).keys),
{
    if let Some(key) = keystroke(text) {
        lemma_with_key(b.keys, key, cmd);
    }
}

proof fn lemma_built(n: int)
    ensures
        distinct(built(n).keys),
    decreases n,
{
    if n > 0 {
        lemma_built(n - 1);
        let r = row((n - 1) as u8);
        let words = " is not a key (built in)"@;
        let one = with_text(built(n - 1), r.first, r.cmd, words);
        lemma_with_text(built(n - 1), r.first, r.cmd, words);
        if let Some(text) = r.second {
            lemma_with_text(one, text, r.cmd, words);
        }
        let two = with_maybe(one, r.second, r.cmd);
        if let Some(text) = r.third {
            lemma_with_text(two, text, r.cmd, words);
        }
    }
}

proof fn lemma_with_wishes(b: Bound, id: Seq<char>, wishes: Seq<Seq<char>>, cmd: Cmd, n: int)
    requires
        distinct(b.keys),
    ensures
        distinct(with_wishes(b, id, wishes, cmd, n).keys),
    decreases n,
{
    if n > 0 {
        lemma_with_wishes(b, id, wishes, cmd, n - 1);
        if let Some(key) = keystroke(wishes[n - 1]) {
            lemma_with_key(with_wishes(b, id, wishes, cmd, n - 1).keys, key, cmd);
        }
    }
}

proof fn lemma_with_plugin(
    b: Bound,
    id: Seq<char>,
    wishes: Seq<(String, Vec<String>)>,
    commands: Seq<(String, Cmd)>,
    n: int,
)
    requires
        distinct(b.keys),
    ensures
        distinct(with_plugin(b, id, wishes, commands, n).keys),
    decreases n,
{
    if n > 0 {
        lemma_with_plugin(b, id, wishes, commands, n - 1);
        let less = with_plugin(b, id, wishes, commands, n - 1);
        let keys = texts(wishes[n - 1].1@);
        if let Some(cmd) = command_named(commands, wishes[n - 1].0@, 0) {
            lemma_with_wishes(less, id, keys, cmd, keys.len() as int);
        }
    }
}

proof fn lemma_with_plugins(
    b: Bound,
    plugins: Seq<Wishes>,
    commands: Seq<(String, Cmd)>,
    n: int,
)
    requires
        distinct(b.keys),
    ensures
        distinct(with_plugins(b, plugins, commands, n).keys),
    decreases n,
{
    if n > 0 {
        lemma_with_plugins(b, plugins, commands, n - 1);
        let p = plugins[n - 1];
        lemma_with_plugin(
            with_plugins(b, plugins, commands, n - 1),
            p.id@,
            p.keys@,
            commands,
            p.keys@.len() as int,
        );
    }
}

proof fn lemma_with_choices(b: Bound, choices: Seq<Seq<char>>, cmd: Cmd, n: int)
    requires
        distinct(b.keys),
    ensures
        distinct(with_choices(b, choices, cmd, n).keys),
    decreases n,
{
    if n > 0 {
        lemma_with_choices(b, choices, cmd, n - 1);
        lemma_with_text(
            with_choices(b, choices, cmd, n - 1),
            choices[n - 1],
            cmd,
            " is not a key"@,
        );
    }
}

/// Whatever plugins would like and whatever somebody chose, every key is bound
/// once.
pub proof fn law_every_key_is_bound_once(
    plugins: Seq<Wishes>,
    overrides: Seq<(String, Vec<String>)>,
    commands: Seq<(String, Cmd)>,
    n: int,
)
    ensures
        distinct(
            with_overrides(
                with_plugins(built(SHIPPED as int), plugins, commands, plugins.len() as int),
                overrides,
                commands,
                n,
            ).keys,
        ),
    decreases n,
{
    let base = with_plugins(built(SHIPPED as int), plugins, commands, plugins.len() as int);
    if n <= 0 {
        lemma_built(SHIPPED as int);
        lemma_with_plugins(built(SHIPPED as int), plugins, commands, plugins.len() as int);
    } else {
        law_every_key_is_bound_once(plugins, overrides, commands, n - 1);
        let less = with_overrides(base, overrides, commands, n - 1);
        let keys = texts(overrides[n - 1].1@);
        if let Some(cmd) = command_named(commands, overrides[n - 1].0@, 0) {
            lemma_kept_distinct(less.keys, cmd, less.keys.len() as int);
            let bare = Bound {
                keys: not_reaching(less.keys, cmd, less.keys.len() as int),
                ..less
            };
            lemma_with_choices(bare, keys, cmd, keys.len() as int);
        }
    }
}
proof fn lemma_choices_keep(b: Bound, choices: Seq<Seq<char>>, cmd: Cmd, n: int, key: Key)
    requires
        distinct(b.keys),
        0 <= n <= choices.len(),
        forall|j: int| 0 <= j < n ==> keystroke(#[trigger] choices[j]) != Some(key),
    ensures
        distinct(with_choices(b, choices, cmd, n).keys),
        done_by(with_choices(b, choices, cmd, n).keys, key) == done_by(b.keys, key),
    decreases n,
{
    if n > 0 {
        lemma_choices_keep(b, choices, cmd, n - 1, key);
        let less = with_choices(b, choices, cmd, n - 1);
        assert(keystroke(choices[n - 1]) != Some(key));
        match keystroke(choices[n - 1]) {
            Some(other) => {
                law_a_key_belongs_to_who_asked_last(less.keys, other, cmd, key);
            },
            None => {},
        }
    }
}

/// A command that nobody names keeps the keys it came with, but for those that
/// somebody asks for by name.
pub proof fn law_what_is_not_named_keeps_its_keys(
    b: Bound,
    overrides: Seq<(String, Vec<String>)>,
    commands: Seq<(String, Cmd)>,
    n: int,
    key: Key,
    cmd: Cmd,
)
    requires
        distinct(b.keys),
        done_by(b.keys, key) == Some(cmd),
        0 <= n <= overrides.len(),
        forall|i: int|
            0 <= i < n ==> command_named(commands, (#[trigger] overrides[i]).0@, 0) != Some(cmd),
        forall|i: int, j: int|
            0 <= i < n && 0 <= j < overrides[i].1@.len() ==> keystroke(
                #[trigger] overrides[i].1@[j]@,
            ) != Some(key),
    ensures
        distinct(with_overrides(b, overrides, commands, n).keys),
        done_by(with_overrides(b, overrides, commands, n).keys, key) == Some(cmd),
    decreases n,
{
    if n > 0 {
        law_what_is_not_named_keeps_its_keys(b, overrides, commands, n - 1, key, cmd);
        let less = with_overrides(b, overrides, commands, n - 1);
        let keys = texts(overrides[n - 1].1@);
        assert(command_named(commands, overrides[n - 1].0@, 0) != Some(cmd));
        match command_named(commands, overrides[n - 1].0@, 0) {
            Some(other) => {
                law_naming_a_command_takes_back_its_keys(less.keys, other, key);
                let bare = Bound {
                    keys: not_reaching(less.keys, other, less.keys.len() as int),
                    ..less
                };
                assert forall|j: int| 0 <= j < keys.len() implies keystroke(#[trigger] keys[j])
                    != Some(key) by {
                    assert(keys[j] == overrides[n - 1].1@[j]@);
                }
                lemma_choices_keep(bare, keys, other, keys.len() as int, key);
            },
            None => {},
        }
    }
}

} // verus!
