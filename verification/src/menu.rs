//! The little list that opens under the pointer. Every row is a command the
//! editor already has, or something handed back to the plugin that put the
//! menu up.
use vstd::prelude::*;

use crate::cmd::Cmd;
use crate::doc::DocId;

verus! {

/// What choosing a row does.
#[derive(PartialEq, Eq, Debug)]
pub enum Action {
    /// Run it on whatever is current.
    Run(Cmd),
    /// Switch to a buffer and then run it.
    RunOn(DocId, Cmd),
    /// A line, not a row. Never chosen.
    Divide,
    /// Hand this back to the plugin that put the menu up.
    Chosen(String),
}

impl Clone for Action {
    fn clone(&self) -> (a: Action)
        ensures
            a == *self,
    {
        match self {
            Action::Run(cmd) => Action::Run(*cmd),
            Action::RunOn(doc, cmd) => Action::RunOn(*doc, *cmd),
            Action::Divide => Action::Divide,
            Action::Chosen(value) => Action::Chosen(value.clone()),
        }
    }
}

/// One row.
#[derive(Debug)]
pub struct Item {
    pub label: String,
    /// The key that also does this.
    pub key: Option<String>,
    pub action: Action,
    /// Whether it can be chosen now. A row that cannot is still drawn.
    pub enabled: bool,
}

/// Whether a row can be chosen.
pub open spec fn can_choose(item: Item) -> bool {
    item.enabled && item.action !is Divide
}

impl Item {
    /// A row a plugin put there. `value` is what it gets back.
    pub fn chosen(label: String, value: String) -> (item: Item)
        ensures
            item == (Item { label, key: None, action: Action::Chosen(value), enabled: true }),
    {
        Item { label, key: None, action: Action::Chosen(value), enabled: true }
    }

    /// A row that runs a command.
    pub fn new(label: String, cmd: Cmd) -> (item: Item)
        ensures
            item == (Item { label, key: None, action: Action::Run(cmd), enabled: true }),
    {
        Item { label, key: None, action: Action::Run(cmd), enabled: true }
    }

    /// A row about a particular buffer rather than the current one.
    pub fn on(doc: DocId, label: String, cmd: Cmd) -> (item: Item)
        ensures
            item == (Item { label, key: None, action: Action::RunOn(doc, cmd), enabled: true }),
    {
        Item { label, key: None, action: Action::RunOn(doc, cmd), enabled: true }
    }

    /// A line between rows.
    pub fn divider() -> (item: Item)
        ensures
            item.label@ == Seq::<char>::empty(),
            item.key is None,
            item.action == Action::Divide,
            !item.enabled,
    {
        Item { label: String::new(), key: None, action: Action::Divide, enabled: false }
    }

    /// The row, with the key that also does it.
    pub fn key(self, key: Option<String>) -> (item: Item)
        ensures
            item == (Item { key, ..self }),
    {
        Item { label: self.label, key, action: self.action, enabled: self.enabled }
    }

    /// The row, with whether it can be chosen now.
    pub fn enabled(self, yes: bool) -> (item: Item)
        ensures
            item == (Item { enabled: yes, ..self }),
    {
        Item { label: self.label, key: self.key, action: self.action, enabled: yes }
    }

    fn choosable(&self) -> (yes: bool)
        ensures
            yes == can_choose(*self),
    {
        self.enabled && !matches!(self.action, Action::Divide)
    }
}

/// A rectangle of screen cells.
#[derive(Clone, Copy, PartialEq, Eq, Structural, Debug)]
pub struct Area {
    pub x: u16,
    pub y: u16,
    pub width: u16,
    pub height: u16,
}

impl Default for Area {
    /// Nowhere.
    fn default() -> (a: Area)
        ensures
            a == (Area { x: 0, y: 0, width: 0, height: 0 }),
    {
        Area { x: 0, y: 0, width: 0, height: 0 }
    }
}

/// An open menu.
#[derive(Debug)]
pub struct Menu {
    pub items: Vec<Item>,
    pub cursor: usize,
    /// The screen cell it grew from, which is where the pointer was.
    pub anchor: (u16, u16),
    /// The first row drawn, for a menu with more rows than there is room for.
    pub scroll: usize,
    /// Where it was last drawn, for answering clicks.
    pub area: Area,
}

/// Where going round `n` rows in steps of `by` comes to a row that can be
/// chosen, looking at no more than `tries` of them; where it began if it
/// comes to none.
pub open spec fn stepped(items: Seq<Item>, start: int, at: int, by: int, tries: nat) -> int
    decreases tries,
{
    let next = (at + by) % (items.len() as int);
    if tries == 0 {
        start
    } else if can_choose(items[next]) {
        next
    } else {
        stepped(items, start, next, by, (tries - 1) as nat)
    }
}

/// The row that a step leads to.
pub open spec fn step_to(items: Seq<Item>, cursor: int, by: int) -> int {
    stepped(items, cursor, cursor, by, items.len())
}

/// The remainder that is never negative.
pub fn around(x: i128, n: i128) -> (r: i128)
    requires
        0 < n,
        -0x1000_0000_0000_0000_0000 < x < 0x1000_0000_0000_0000_0000,
    ensures
        r == x as int % n as int,
        0 <= r < n,
{
    if x >= 0 {
        x % n
    } else {
        let m: i128 = (-x) % n;
        proof {
            let q = (-x) as int / n as int;
            assert(-x == n * q + m) by {
                vstd::arithmetic::div_mod::lemma_fundamental_div_mod((-x) as int, n as int);
            }
            if m == 0 {
                assert(x == (-q) * n + 0) by (nonlinear_arith)
                    requires
                        -x == n * q + m,
                        m == 0,
                ;
                vstd::arithmetic::div_mod::lemma_fundamental_div_mod_converse(
                    x as int,
                    n as int,
                    -q,
                    0,
                );
            } else {
                assert(x == (-q - 1) * n + (n - m)) by (nonlinear_arith)
                    requires
                        -x == n * q + m,
                ;
                vstd::arithmetic::div_mod::lemma_fundamental_div_mod_converse(
                    x as int,
                    n as int,
                    -q - 1,
                    n - m,
                );
            }
        }
        if m == 0 {
            0
        } else {
            n - m
        }
    }
}

proof fn lemma_step_finds(items: Seq<Item>, start: int, at: int, tries: nat, j: int)
    requires
        0 <= at < items.len(),
        0 <= j < items.len(),
        can_choose(items[j]),
        1 <= (if j > at { j - at } else { j - at + items.len() }) <= tries,
    ensures
        ({
            let r = stepped(items, start, at, 1, tries);
            0 <= r < items.len() && can_choose(items[r])
        }),
    decreases tries,
{
    let n = items.len() as int;
    let next = (at + 1) % n;
    assert(next == if at + 1 < n { at + 1 } else { 0 }) by {
        if at + 1 < n {
            vstd::arithmetic::div_mod::lemma_small_mod((at + 1) as nat, n as nat);
        } else {
            vstd::arithmetic::div_mod::lemma_mod_self_0(n);
        }
    }
    if !can_choose(items[next]) {
        lemma_step_finds(items, start, next, (tries - 1) as nat, j);
    }
}

/// Stepping on comes to a row that can be chosen, where there is one.
pub proof fn law_a_step_lands_on_a_row(items: Seq<Item>, cursor: int, j: int)
    requires
        0 <= cursor < items.len(),
        0 <= j < items.len(),
        can_choose(items[j]),
    ensures
        0 <= step_to(items, cursor, 1) < items.len(),
        can_choose(items[step_to(items, cursor, 1)]),
{
    lemma_step_finds(items, cursor, cursor, items.len(), j);
}

/// What a row means, where it can be chosen.
pub open spec fn means(items: Seq<Item>, at: int) -> Option<Action> {
    if 0 <= at < items.len() && can_choose(items[at]) { Some(items[at].action) } else { None }
}

/// Whether any row can be chosen.
pub open spec fn any_choice(items: Seq<Item>) -> bool {
    exists|i: int| 0 <= i < items.len() && can_choose(#[trigger] items[i])
}

/// The widest row, where row `i` is as wide as its label and, three cells
/// further on, its key.
pub open spec fn widest(widths: Seq<(usize, Option<usize>)>) -> nat
    decreases widths.len(),
{
    if widths.len() == 0 {
        0
    } else {
        let less = widest(widths.drop_last());
        let here = row_width(widths.last());
        if here > less { here } else { less }
    }
}

/// How wide a row is.
pub open spec fn row_width(w: (usize, Option<usize>)) -> nat {
    match w.1 {
        Some(key) => (w.0 + key + 3) as nat,
        None => w.0 as nat,
    }
}

impl Menu {
    /// Open a menu, on something that can be chosen.
    pub fn new(items: Vec<Item>, anchor: (u16, u16)) -> (m: Menu)
        ensures
            m.items@ == items@,
            m.anchor == anchor,
            m.scroll == 0,
            m.area == (Area { x: 0, y: 0, width: 0, height: 0 }),
            m.cursor == if items@.len() > 0 && can_choose(items@[0]) || !any_choice(items@) {
                0
            } else {
                step_to(items@, 0, 1)
            },
            any_choice(items@) ==> means(m.items@, m.cursor as int) is Some,
    {
        let ghost rows = items@;
        let mut menu = Menu { items, cursor: 0, anchor, scroll: 0, area: Area::default() };
        if menu.items.len() == 0 || !menu.items[0].choosable() {
            menu.step(1);
        }
        proof {
            if any_choice(rows) {
                let j = choose|j: int| 0 <= j < rows.len() && can_choose(#[trigger] rows[j]);
                law_a_step_lands_on_a_row(rows, 0, j);
            }
        }
        menu
    }

    /// How many rows there are.
    pub fn len(&self) -> (n: usize)
        ensures
            n == self.items@.len(),
    {
        self.items.len()
    }

    /// How wide the box has to be, from how wide each label and each key is
    /// drawn.
    pub fn width(widths: &Vec<(usize, Option<usize>)>) -> (w: u16)
        requires
            widest(widths@) + 4 <= usize::MAX,
            forall|i: int|
                0 <= i < widths@.len() ==> row_width(#[trigger] widths@[i]) <= usize::MAX,
        ensures
            ({
                let want = (if widths@.len() == 0 { 8 } else { widest(widths@) }) + 4;
                w == if want < 14 {
                    14
                } else if want > 48 {
                    48
                } else {
                    want as int
                }
            }),
    {
        let mut most: usize = 0;
        let mut n: usize = 0;
        while n < widths.len()
            invariant
                n <= widths@.len(),
                most == widest(widths@.take(n as int)),
                forall|i: int|
                    0 <= i < widths@.len() ==> row_width(#[trigger] widths@[i]) <= usize::MAX,
            decreases widths@.len() - n,
        {
            assert(widths@.take(n + 1).drop_last() =~= widths@.take(n as int));
            assert(row_width(widths@[n as int]) <= usize::MAX);
            let here: usize = match widths[n].1 {
                Some(key) => widths[n].0 + key + 3,
                None => widths[n].0,
            };
            if here > most {
                most = here;
            }
            n = n + 1;
        }
        assert(widths@.take(n as int) =~= widths@);
        let want: usize = (if widths.len() == 0 { 8 } else { most }) + 4;
        if want < 14 {
            14
        } else if want > 48 {
            48
        } else {
            want as u16
        }
    }

    /// Move the highlight, skipping dividers and anything unavailable, and
    /// going round the ends.
    pub fn step(&mut self, by: isize)
        ensures
            final(self).items == old(self).items,
            final(self).anchor == old(self).anchor,
            final(self).scroll == old(self).scroll,
            final(self).area == old(self).area,
            final(self).cursor == if any_choice(old(self).items@) {
                step_to(old(self).items@, old(self).cursor as int, by as int)
            } else {
                old(self).cursor as int
            },
    {
        let mut any = false;
        let mut i: usize = 0;
        while i < self.items.len()
            invariant
                i <= self.items@.len(),
                *self == *old(self),
                any == exists|j: int| 0 <= j < i && can_choose(#[trigger] self.items@[j]),
            decreases self.items@.len() - i,
        {
            if self.items[i].choosable() {
                any = true;
            }
            i = i + 1;
        }
        if !any {
            return;
        }
        let ghost start = self.cursor as int;
        let n: i128 = self.items.len() as i128;
        let mut at: i128 = self.cursor as i128;
        let mut left: usize = self.items.len();
        while left > 0
            invariant
                left <= self.items@.len(),
                *self == *old(self),
                start == self.cursor,
                n == self.items@.len(),
                0 < n <= usize::MAX,
                any_choice(self.items@),
                0 <= at < 0x1_0000_0000_0000_0000,
                step_to(self.items@, start, by as int) == stepped(
                    self.items@,
                    start,
                    at as int,
                    by as int,
                    left as nat,
                ),
            decreases left,
        {
            at = around(at + by as i128, n);
            if self.items[at as usize].choosable() {
                self.cursor = at as usize;
                return;
            }
            left = left - 1;
        }
    }

    /// Put the highlight where the pointer is: on a row that cannot be chosen
    /// as well as on one that can, but not on a divider.
    pub fn point_at(&mut self, at: usize)
        ensures
            *final(self) == (Menu {
                cursor: if at < old(self).items@.len() && old(self).items@[at as int].action !is Divide {
                    at
                } else {
                    old(self).cursor
                },
                ..*old(self)
            }),
    {
        if at < self.items.len() && !matches!(self.items[at].action, Action::Divide) {
            self.cursor = at;
        }
    }

    /// What choosing the highlighted row means.
    pub fn chosen(&self) -> (r: Option<Action>)
        ensures
            r == means(self.items@, self.cursor as int),
    {
        self.at(self.cursor)
    }

    /// What choosing a row means: nothing, for a divider or for a row that
    /// cannot be chosen.
    pub fn at(&self, at: usize) -> (r: Option<Action>)
        ensures
            r == means(self.items@, at as int),
    {
        if at < self.items.len() && self.items[at].choosable() {
            Some(self.items[at].action.clone())
        } else {
            None
        }
    }
}

} // verus!
