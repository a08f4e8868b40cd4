//! A conversation with another program: what has been asked and not been
//! answered, and what is waiting to be sent.
//!
//! Nothing is sent from here. Whoever holds the connection takes what is on
//! the list and sends it in that order.
use vstd::prelude::*;

use crate::json::{Json, Value};

verus! {

/// Something to be sent.
#[derive(Debug)]
pub enum Sending {
    Request { id: i64, method: String, params: Json },
    Notify { method: String, params: Json },
    Answer { id: Json, result: Json },
    Refuse { id: Json, code: i64, message: String },
    /// Go away, and take the program along or leave it.
    Disconnect { ours: bool },
    /// Stop, politely and then not.
    Stop,
}

/// Something to be sent.
pub ghost enum Sent {
    Request(i64, Seq<char>, Value),
    Notify(Seq<char>, Value),
    Answer(Value, Value),
    Refuse(Value, int, Seq<char>),
    Disconnect(bool),
    Stop,
}

impl View for Sending {
    type V = Sent;

    open spec fn view(&self) -> Sent {
        match self {
            Sending::Request { id, method, params } => Sent::Request(*id, method@, params@),
            Sending::Notify { method, params } => Sent::Notify(method@, params@),
            Sending::Answer { id, result } => Sent::Answer(id@, result@),
            Sending::Refuse { id, code, message } => Sent::Refuse(id@, *code as int, message@),
            Sending::Disconnect { ours } => Sent::Disconnect(*ours),
            Sending::Stop => Sent::Stop,
        }
    }
}

/// What came from the other program.
#[derive(Debug)]
pub enum Incoming {
    Notification { method: String, params: Json },
    Response { id: i64, result: Result<Json, String> },
    Request { id: Json, method: String, params: Json },
    /// It has gone, and why.
    Exited(String),
}

/// What an answer says.
pub open spec fn outcome(r: Result<Json, String>) -> Result<Value, Seq<char>> {
    match r {
        Ok(j) => Ok(j@),
        Err(s) => Err(s@),
    }
}

/// What each of a list is.
pub open spec fn views<T: View>(v: Seq<T>) -> Seq<T::V> {
    v.map_values(|x: T| x@)
}

/// A conversation. What is asked for is kept with each request, so that the
/// answer knows what it is an answer to.
#[derive(Debug)]
pub struct Peer<A> {
    /// The number of the next request.
    pub next: i64,
    /// The requests that have not been answered.
    pub waiting: Vec<(i64, A)>,
    /// What is to be sent.
    pub sending: Vec<Sending>,
}

/// A conversation.
#[verifier::ext_equal]
pub ghost struct Talk<B> {
    pub next: i64,
    pub waiting: Seq<(i64, B)>,
    pub sending: Seq<Sent>,
}

/// The requests that wait.
pub open spec fn waits<A: View>(v: Seq<(i64, A)>) -> Seq<(i64, A::V)> {
    v.map_values(|p: (i64, A)| (p.0, p.1@))
}

impl<A: View> View for Peer<A> {
    type V = Talk<A::V>;

    open spec fn view(&self) -> Talk<A::V> {
        Talk {
            next: self.next,
            waiting: waits(self.waiting@),
            sending: views(self.sending@),
        }
    }
}

/// A conversation that has just begun.
pub open spec fn silence<B>() -> Talk<B> {
    Talk { next: 1, waiting: Seq::empty(), sending: Seq::empty() }
}

/// A conversation in which something was asked for.
pub open spec fn asked<B>(t: Talk<B>, method: Seq<char>, params: Value, ask: B) -> Talk<B> {
    Talk {
        next: t.next.wrapping_add(1),
        waiting: t.waiting.push((t.next, ask)),
        sending: t.sending.push(Sent::Request(t.next, method, params)),
    }
}

/// A conversation in which something was said.
pub open spec fn spoken<B>(t: Talk<B>, s: Sent) -> Talk<B> {
    Talk { sending: t.sending.push(s), ..t }
}

/// The place of the request with a number, or the end.
pub open spec fn waiting_place<B>(ws: Seq<(i64, B)>, id: i64, i: int) -> int
    decreases ws.len() - i,
{
    if 0 <= i < ws.len() && ws[i].0 != id { waiting_place(ws, id, i + 1) } else { i }
}

/// A conversation in which the request at a place was answered.
pub open spec fn claimed<B>(t: Talk<B>, at: int) -> Talk<B> {
    Talk { waiting: t.waiting.remove(at), ..t }
}

impl<A: View> Peer<A> {
    /// Nothing said yet.
    pub fn new() -> (p: Peer<A>)
        ensures
            p@ == silence::<A::V>(),
    {
        let p = Peer { next: 1, waiting: Vec::new(), sending: Vec::new() };
        assert(p@ =~= silence::<A::V>());
        p
    }

    /// Ask something, and write down what the answer will mean.
    pub fn request(&mut self, method: &str, params: Json, ask: A) -> (id: i64)
        ensures
            final(self)@ == asked(old(self)@, method@, params@, ask@),
            id == old(self)@.next,
    {
        let ghost was = self@;
        let id = self.next;
        let ghost a = ask@;
        let ghost args = params@;
        let ghost w = self.waiting@;
        let ghost o = self.sending@;
        self.waiting.push((id, ask));
        self.sending.push(Sending::Request { id, method: method.to_owned(), params });
        self.next = id.wrapping_add(1);
        assert(waits(self.waiting@) =~= waits(w).push((id, a)));
        assert(views(self.sending@) =~= views(o).push(Sent::Request(id, method@, args)));
        assert(self@ =~= asked(was, method@, args, a));
        id
    }

    /// Say something.
    pub fn send(&mut self, s: Sending)
        ensures
            final(self)@ == spoken(old(self)@, s@),
    {
        let ghost was = self@;
        let ghost o = self.sending@;
        let ghost is = s@;
        self.sending.push(s);
        assert(views(self.sending@) =~= views(o).push(is));
        assert(self@ =~= spoken(was, is));
    }

    /// Say something that wants no answer.
    pub fn notify(&mut self, method: &str, params: Json)
        ensures
            final(self)@ == spoken(old(self)@, Sent::Notify(method@, params@)),
    {
        self.send(Sending::Notify { method: method.to_owned(), params });
    }

    /// Answer something.
    pub fn answer(&mut self, id: Json, result: Json)
        ensures
            final(self)@ == spoken(old(self)@, Sent::Answer(id@, result@)),
    {
        self.send(Sending::Answer { id, result });
    }

    /// Refuse something.
    pub fn refuse(&mut self, id: Json, code: i64, message: &str)
        ensures
            final(self)@ == spoken(old(self)@, Sent::Refuse(id@, code as int, message@)),
    {
        self.send(Sending::Refuse { id, code, message: message.to_owned() });
    }

    /// What an answer is to, which is then answered. Each is handed out once.
    pub fn claim(&mut self, id: i64) -> (r: Option<A>)
        ensures
            ({
                let at = waiting_place(old(self)@.waiting, id, 0);
                match r {
                    Some(ask) => at < old(self)@.waiting.len() && ask@
                        == old(self)@.waiting[at].1 && final(self)@ == claimed(old(self)@, at),
                    None => at >= old(self)@.waiting.len() && final(self)@ == old(self)@,
                }
            }),
    {
        let ghost was = self@;
        let ghost ws = waits(self.waiting@);
        let mut at: usize = 0;
        while at < self.waiting.len() && self.waiting[at].0 != id
            invariant
                at <= self.waiting@.len(),
                self@ == was,
                ws == waits(self.waiting@),
                waiting_place(ws, id, 0) == waiting_place(ws, id, at as int),
            decreases self.waiting@.len() - at,
        {
            assert(ws[at as int] == (self.waiting@[at as int].0, self.waiting@[at as int].1@));
            at = at + 1;
        }
        assert(ws.len() == self.waiting@.len());
        if at < self.waiting.len() {
            assert(ws[at as int] == (self.waiting@[at as int].0, self.waiting@[at as int].1@));
            let (_, ask) = self.waiting.remove(at);
            assert(waits(self.waiting@) =~= ws.remove(at as int));
            assert(self@ =~= claimed(was, at as int));
            Some(ask)
        } else {
            None
        }
    }
}

/// A request is answered once: an answer that comes a second time is to
/// nothing that waits, where no two requests that wait have one number.
pub proof fn law_an_answer_is_taken_once<B>(t: Talk<B>, id: i64)
    requires
        forall|i: int, j: int|
            0 <= i < j < t.waiting.len() ==> (#[trigger] t.waiting[i]).0 != (#[trigger] t.waiting[j]).0,
    ensures
        ({
            let at = waiting_place(t.waiting, id, 0);
            let rest = claimed(t, at).waiting;
            at < t.waiting.len() ==> waiting_place(rest, id, 0) == rest.len()
        }),
{
    let at = waiting_place(t.waiting, id, 0);
    if at < t.waiting.len() {
        lemma_waiting_place(t.waiting, id, 0);
        let ws = t.waiting.remove(at);
        assert forall|k: int| 0 <= k < ws.len() implies (#[trigger] ws[k]).0 != id by {
            if k < at {
                assert(ws[k] == t.waiting[k]);
                assert(t.waiting[k].0 != t.waiting[at].0);
            } else {
                assert(ws[k] == t.waiting[k + 1]);
                assert(t.waiting[at].0 != t.waiting[k + 1].0);
            }
        }
        lemma_nothing_waits(ws, id, 0);
    }
}

proof fn lemma_waiting_place<B>(ws: Seq<(i64, B)>, id: i64, i: int)
    requires
        0 <= i <= ws.len(),
    ensures
        i <= waiting_place(ws, id, i) <= ws.len(),
        waiting_place(ws, id, i) < ws.len() ==> ws[waiting_place(ws, id, i)].0 == id,
    decreases ws.len() - i,
{
    if i < ws.len() && ws[i].0 != id {
        lemma_waiting_place(ws, id, i + 1);
    }
}

proof fn lemma_nothing_waits<B>(ws: Seq<(i64, B)>, id: i64, i: int)
    requires
        0 <= i <= ws.len(),
        forall|k: int| 0 <= k < ws.len() ==> (#[trigger] ws[k]).0 != id,
    ensures
        waiting_place(ws, id, i) == ws.len(),
    decreases ws.len() - i,
{
    if i < ws.len() {
        lemma_nothing_waits(ws, id, i + 1);
    }
}

} // verus!
