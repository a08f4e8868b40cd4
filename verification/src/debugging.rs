//! What is said to debug adapters and what is made of what they say: by the names
//! and the counting that the protocol has.
use vstd::prelude::*;

use crate::dap::{
    after_answer, after_event, breakpoint_value, breakpoints_value, controlled, counted, file_place, file_slot,
    frame_of, frame_with, frames_of, gone, hello, items_in, line_taken, lines_at, lines_taken,
    looked_at, on_stack, on_stop, one_number, placed, question, stack_arguments, step_word,
    taken_in, thread_of, toggled, variable_of, variables_of, with_breakpoints, with_file, Asked,
    FrameAt, Sess, Step,
};
use crate::json::{bool_in, field, field_in, int_in, text_in, Value};
use crate::path::same_path;
use crate::protocol::lemma_field_at;
use crate::rpc::Sent;

verus! {

proof fn lemma_names()
    ensures
        "line"@ != "verified"@,
        "source"@ != "breakpoints"@,
        "path"@ != "name"@,
        "expression"@ != "frameId"@,
        "expression"@ != "context"@,
        "frameId"@ != "context"@,
        "threadId"@ != "startFrame"@,
        "next"@ != "stepIn"@,
        "next"@ != "stepOut"@,
        "stepIn"@ != "stepOut"@,
{
    reveal_strlit("line");
    reveal_strlit("verified");
    reveal_strlit("source");
    reveal_strlit("breakpoints");
    reveal_strlit("path");
    reveal_strlit("name");
    reveal_strlit("expression");
    reveal_strlit("frameId");
    reveal_strlit("context");
    reveal_strlit("threadId");
    reveal_strlit("startFrame");
    reveal_strlit("next");
    reveal_strlit("stepIn");
    reveal_strlit("stepOut");
    assert("line"@.len() == 4 && "verified"@.len() == 8);
    assert("source"@.len() == 6 && "breakpoints"@.len() == 11);
    assert("path"@[0] == 'p' && "name"@[0] == 'n');
    assert("expression"@.len() == 10 && "frameId"@.len() == 7 && "context"@.len() == 7);
    assert("frameId"@[0] == 'f' && "context"@[0] == 'c');
    assert("threadId"@.len() == 8 && "startFrame"@.len() == 10);
    assert("next"@.len() == 4 && "stepIn"@.len() == 6 && "stepOut"@.len() == 7);
}

// ---------------------------------------------------------------------------
// Lines
// ---------------------------------------------------------------------------

/// An adapter is told that lines are counted from one, and what it says is read
/// so: its line is one more than the line that is meant.
pub proof fn law_lines_are_counted_from_one(name: Seq<char>, n: i64)
    requires
        1 <= n,
        n - 1 <= usize::MAX,
    ensures
        bool_in(field(hello(name), "linesStartAt1"@)) == Some(true),
        bool_in(field(hello(name), "columnsStartAt1"@)) == Some(true),
        counted(Some(n)) + 1 == n,
{
    reveal_strlit("clientID");
    reveal_strlit("clientName");
    reveal_strlit("adapterID");
    reveal_strlit("locale");
    reveal_strlit("linesStartAt1");
    reveal_strlit("columnsStartAt1");
    assert("clientID"@.len() == 8 && "clientName"@.len() == 10 && "adapterID"@.len() == 9);
    assert("locale"@.len() == 6 && "linesStartAt1"@.len() == 13 && "columnsStartAt1"@.len() == 15);
    let fs = hello(name)->Object_0;
    lemma_field_at(fs, "linesStartAt1"@, 0, 4);
    lemma_field_at(fs, "columnsStartAt1"@, 0, 5);
}

/// A breakpoint is written so that its line reads back: by the rule that an
/// adapter's lines are read by, and by the one that its answers about breakpoints
/// are.
pub proof fn law_a_breakpoint_reads_back(line: usize, answer: Value)
    requires
        line < i64::MAX,
        line < usize::MAX,
        field(answer, "line"@) == field(breakpoint_value(line), "line"@),
        bool_in(field(answer, "verified"@)) == Some(true),
    ensures
        counted(int_in(field(breakpoint_value(line), "line"@))) == line,
        line_taken(answer) == Some(line),
{
    let fs = breakpoint_value(line)->Object_0;
    lemma_field_at(fs, "line"@, 0, 0);
}

/// Whether lines are such as a protocol can say.
pub open spec fn tellable(lines: Seq<usize>) -> bool {
    forall|i: int| 0 <= i < lines.len() ==> (#[trigger] lines[i]) < i64::MAX && lines[i] < usize::MAX
}

/// Whether parameters say just these lines of a file, as an adapter's own would be
/// read.
pub open spec fn says_lines(params: Value, path: Seq<char>, lines: Seq<usize>) -> bool {
    let said = items_in(params, "breakpoints"@);
    &&& text_in(field_in(field(params, "source"@), "path"@)) == Some(path)
    &&& said.len() == lines.len()
    &&& forall|i: int|
        0 <= i < lines.len() ==> counted(int_in(field(#[trigger] said[i], "line"@))) == lines[i]
}

/// The breakpoints of a file are all told, in order, each on its line, and under
/// the name of the file.
pub proof fn law_breakpoints_are_told_where_they_are(path: Seq<char>, lines: Seq<usize>)
    requires
        tellable(lines),
    ensures
        says_lines(breakpoints_value(path, lines), path, lines),
{
    lemma_names();
    let v = breakpoints_value(path, lines);
    let fs = v->Object_0;
    lemma_field_at(fs, "source"@, 0, 0);
    lemma_field_at(fs, "breakpoints"@, 0, 1);
    lemma_field_at(fs[0].1->Object_0, "path"@, 0, 0);
    let said = items_in(v, "breakpoints"@);
    assert forall|i: int| 0 <= i < lines.len() implies counted(
        int_in(field(#[trigger] said[i], "line"@)),
    ) == lines[i] by {
        assert(said[i] == breakpoint_value(lines[i]));
        lemma_field_at(breakpoint_value(lines[i])->Object_0, "line"@, 0, 0);
    }
}

/// Whether what a session sends has grown by one request for each of some files,
/// about the lines of that.
pub open spec fn sent_for(
    was: Seq<Sent>,
    now: Seq<Sent>,
    files: Seq<(Seq<char>, Seq<usize>)>,
) -> bool {
    &&& now.len() == was.len() + files.len()
    &&& forall|i: int| 0 <= i < was.len() ==> #[trigger] now[i] == was[i]
    &&& forall|k: int|
        0 <= k < files.len() ==> match #[trigger] now[was.len() + k] {
            Sent::Request(_, method, params) => method == "setBreakpoints"@ && says_lines(
                params,
                files[k].0,
                files[k].1,
            ),
            _ => false,
        }
}

proof fn lemma_placed(s: Sess, bs: Seq<(Seq<char>, Seq<usize>)>, n: int)
    requires
        0 <= n <= bs.len(),
        forall|k: int| 0 <= k < bs.len() ==> tellable((#[trigger] bs[k]).1),
    ensures
        sent_for(s.peer.sending, placed(s, bs, n).peer.sending, bs.take(n)),
        n == bs.len() ==> sent_for(s.peer.sending, placed(s, bs, n).peer.sending, bs),
        placed(s, bs, n).verified == s.verified,
        placed(s, bs, n).state == s.state,
    decreases n,
{
    if n > 0 {
        lemma_placed(s, bs, n - 1);
        assert(tellable(bs[n - 1].1));
        law_breakpoints_are_told_where_they_are(bs[n - 1].0, bs[n - 1].1);
        let (was, mid, now) = (
            s.peer.sending,
            placed(s, bs, n - 1).peer.sending,
            placed(s, bs, n).peer.sending,
        );
        assert forall|k: int| 0 <= k < n implies match #[trigger] now[was.len() + k] {
            Sent::Request(_, method, params) => method == "setBreakpoints"@ && says_lines(
                params,
                bs.take(n)[k].0,
                bs.take(n)[k].1,
            ),
            _ => false,
        } by {
            if k < n - 1 {
                assert(now[was.len() + k] == mid[was.len() + k]);
                assert(bs.take(n - 1)[k] == bs.take(n)[k]);
            }
        }
    }
    if n == bs.len() {
        assert(bs.take(n) =~= bs);
    }
}

proof fn lemma_gone(
    vs: Seq<(Seq<char>, Seq<usize>)>,
    bs: Seq<(Seq<char>, Seq<usize>)>,
    n: int,
    i: int,
)
    requires
        0 <= n <= vs.len(),
    ensures
        forall|k: int| 0 <= k < gone(vs, bs, n).len() ==> (#[trigger] gone(vs, bs, n)[k]).1.len() == 0,
        0 <= i < n && file_place(bs, vs[i].0, 0) >= bs.len() ==> gone(vs, bs, n).contains(
            (vs[i].0, Seq::empty()),
        ),
    decreases n,
{
    if n > 0 {
        lemma_gone(vs, bs, n - 1, i);
        let less = gone(vs, bs, n - 1);
        let all = gone(vs, bs, n);
        if 0 <= i < n && file_place(bs, vs[i].0, 0) >= bs.len() {
            let want = (vs[i].0, Seq::<usize>::empty());
            if i < n - 1 {
                let j = choose|j: int| 0 <= j < less.len() && less[j] == want;
                assert(all[j] == want);
            } else {
                assert(all[less.len() as int] == want);
            }
        }
        assert forall|k: int| 0 <= k < all.len() implies (#[trigger] all[k]).1.len() == 0 by {
            if k < less.len() {
                assert(all[k] == less[k]);
            }
        }
    }
}

/// An adapter that is ready is told of the breakpoints of every file, one request
/// for each, and of every file that it had some of and that has none any more it
/// is told that there are none.
pub proof fn law_every_file_with_breakpoints_is_told(
    s: Sess,
    bs: Seq<(Seq<char>, Seq<usize>)>,
    i: int,
)
    requires
        s.configured,
        !(s.state is Ended),
        forall|k: int| 0 <= k < bs.len() ==> tellable((#[trigger] bs[k]).1),
    ensures
        exists|more: Seq<(Seq<char>, Seq<usize>)>|
            {
                &&& #[trigger] sent_for(
                    s.peer.sending,
                    with_breakpoints(s, bs).peer.sending,
                    bs + more,
                )
                &&& forall|k: int| 0 <= k < more.len() ==> (#[trigger] more[k]).1.len() == 0
                &&& 0 <= i < s.verified.len() && file_place(bs, s.verified[i].0, 0) >= bs.len()
                    ==> more.contains((s.verified[i].0, Seq::empty()))
            },
{
    let more = gone(s.verified, bs, s.verified.len() as int);
    lemma_gone(s.verified, bs, s.verified.len() as int, i);
    let all = bs + more;
    assert forall|k: int| 0 <= k < all.len() implies tellable((#[trigger] all[k]).1) by {
        if k < bs.len() {
            assert(all[k] == bs[k]);
        } else {
            assert(all[k] == more[k - bs.len()]);
        }
    }
    lemma_placed(s, all, all.len() as int);
    assert(sent_for(s.peer.sending, with_breakpoints(s, bs).peer.sending, bs + more));
}

// ---------------------------------------------------------------------------
// Which breakpoints are in force
// ---------------------------------------------------------------------------

proof fn lemma_file_place(vs: Seq<(Seq<char>, Seq<usize>)>, path: Seq<char>, i: int)
    requires
        0 <= i <= vs.len(),
    ensures
        i <= file_place(vs, path, i) <= vs.len(),
        forall|k: int| i <= k < file_place(vs, path, i) ==> !same_path((#[trigger] vs[k]).0, path),
        file_place(vs, path, i) < vs.len() ==> same_path(vs[file_place(vs, path, i)].0, path),
    decreases vs.len() - i,
{
    if i < vs.len() && !same_path(vs[i].0, path) {
        lemma_file_place(vs, path, i + 1);
    }
}

proof fn lemma_file_place_is(vs: Seq<(Seq<char>, Seq<usize>)>, path: Seq<char>, i: int, at: int)
    requires
        0 <= i <= at <= vs.len(),
        forall|k: int| i <= k < at ==> !same_path((#[trigger] vs[k]).0, path),
        at < vs.len() ==> same_path(vs[at].0, path),
    ensures
        file_place(vs, path, i) == at,
    decreases at - i,
{
    if i < at {
        lemma_file_place_is(vs, path, i + 1, at);
    }
}

proof fn lemma_file_slot(vs: Seq<(Seq<char>, Seq<usize>)>, path: Seq<char>, i: int)
    requires
        0 <= i <= vs.len(),
    ensures
        i <= file_slot(vs, path, i) <= vs.len(),
    decreases vs.len() - i,
{
    if i < vs.len() && !crate::path::path_before(path, vs[i].0) {
        lemma_file_slot(vs, path, i + 1);
    }
}

/// The lines that were set of a file are the lines of that file, and those of any
/// other are what they were.
pub proof fn law_the_lines_of_a_file_are_those_that_were_set(
    vs: Seq<(Seq<char>, Seq<usize>)>,
    path: Seq<char>,
    lines: Seq<usize>,
    other: Seq<char>,
)
    ensures
        lines_at(with_file(vs, path, lines), path) == Some(lines),
        !same_path(other, path) ==> lines_at(with_file(vs, path, lines), other) == lines_at(
            vs,
            other,
        ),
{
    let at = file_place(vs, path, 0);
    let now = with_file(vs, path, lines);
    lemma_file_place(vs, path, 0);
    lemma_file_place(vs, other, 0);
    let o = file_place(vs, other, 0);
    if at < vs.len() {
        assert forall|k: int| 0 <= k < at implies !same_path((#[trigger] now[k]).0, path) by {
            assert(now[k] == vs[k]);
        }
        lemma_file_place_is(now, path, 0, at);
        if !same_path(other, path) {
            assert forall|k: int| 0 <= k < o implies !same_path((#[trigger] now[k]).0, other) by {
                assert(now[k].0 == vs[k].0);
            }
            lemma_file_place_is(now, other, 0, o);
            if o < vs.len() {
                assert(o != at);
            }
        }
    } else {
        let slot = file_slot(vs, path, 0);
        lemma_file_slot(vs, path, 0);
        assert forall|k: int| 0 <= k < slot implies !same_path((#[trigger] now[k]).0, path) by {
            assert(now[k] == vs[k]);
        }
        assert(now[slot] == (path, lines));
        lemma_file_place_is(now, path, 0, slot);
        if !same_path(other, path) {
            let p = if o < slot { o } else { o + 1 };
            assert forall|k: int| 0 <= k < p implies !same_path((#[trigger] now[k]).0, other) by {
                if k < slot {
                    assert(now[k] == vs[k]);
                } else if k > slot {
                    assert(now[k] == vs[k - 1]);
                } else {
                    assert(now[k] == (path, lines));
                }
            }
            if o < vs.len() {
                assert(now[p] == vs[o]);
            }
            lemma_file_place_is(now, other, 0, p);
        }
    }
}

proof fn lemma_lines_taken(l: Seq<Value>, n: int, k: int)
    requires
        0 <= n <= l.len(),
    ensures
        0 <= k < n && line_taken(l[k]) is Some ==> lines_taken(l, n).contains(line_taken(l[k])->0),
        forall|j: int|
            0 <= j < lines_taken(l, n).len() ==> exists|i: int|
                0 <= i < n && line_taken(#[trigger] l[i]) == Some(#[trigger] lines_taken(l, n)[j]),
    decreases n,
{
    if n > 0 {
        lemma_lines_taken(l, n - 1, k);
        let less = lines_taken(l, n - 1);
        let all = lines_taken(l, n);
        if 0 <= k < n && line_taken(l[k]) is Some {
            let x = line_taken(l[k])->0;
            if k < n - 1 {
                let j = choose|j: int| 0 <= j < less.len() && less[j] == x;
                assert(all[j] == x);
            } else {
                assert(all[less.len() as int] == x);
            }
        }
        assert forall|j: int| 0 <= j < all.len() implies exists|i: int|
            0 <= i < n && line_taken(#[trigger] l[i]) == Some(#[trigger] all[j]) by {
            if j < less.len() {
                assert(all[j] == less[j]);
                let i = choose|i: int| 0 <= i < n - 1 && line_taken(#[trigger] l[i]) == Some(less[j]);
                assert(line_taken(l[i]) == Some(all[j]));
            } else {
                assert(line_taken(l[n - 1]) == Some(all[j]));
            }
        }
    }
}

/// Once an adapter has answered about the breakpoints of a file, those are in force
/// that it says it has put somewhere, on the lines that it says, and no others. The
/// breakpoints of other files stay as they were.
pub proof fn law_an_answer_says_which_breakpoints_are_in_force(
    s: Sess,
    path: Seq<char>,
    answer: Value,
    k: int,
    line: usize,
    other: Seq<char>,
)
    ensures
        ({
            let now = after_answer(s, Asked::Breakpoints(path), answer).0;
            let said = items_in(answer, "breakpoints"@);
            &&& lines_at(now.verified, path) is Some
            &&& 0 <= k < said.len() && bool_in(field(said[k], "verified"@)) == Some(true) && int_in(
                field(said[k], "line"@),
            ) == Some((line + 1) as i64) && line < i64::MAX && line < usize::MAX ==> lines_at(
                now.verified,
                path,
            )->0.contains(line)
            &&& lines_at(now.verified, path)->0.contains(line) ==> exists|i: int|
                0 <= i < said.len() && bool_in(field(#[trigger] said[i], "verified"@)) == Some(true)
            &&& !same_path(other, path) ==> lines_at(now.verified, other) == lines_at(
                s.verified,
                other,
            )
        }),
{
    let said = items_in(answer, "breakpoints"@);
    let taken = taken_in(answer);
    law_the_lines_of_a_file_are_those_that_were_set(s.verified, path, taken, other);
    lemma_lines_taken(said, said.len() as int, k);
    if taken.contains(line) {
        let j = choose|j: int| 0 <= j < taken.len() && taken[j] == line;
        assert(lines_taken(said, said.len() as int)[j] == line);
        let i = choose|i: int| 0 <= i < said.len() && line_taken(#[trigger] said[i]) == Some(line);
        assert(bool_in(field(said[i], "verified"@)) == Some(true));
    }
}

// ---------------------------------------------------------------------------
// Going on
// ---------------------------------------------------------------------------

/// Whether a session has been sent one request more than another.
pub open spec fn asks(was: Sess, now: Sess, command: Seq<char>, arguments: Value, ask: Asked) -> bool {
    &&& now.peer.sending == was.peer.sending.push(
        Sent::Request(was.peer.next, command, arguments),
    )
    &&& now.peer.waiting == was.peer.waiting.push((was.peer.next, ask))
}

/// A number reads back from what is said with it alone.
proof fn lemma_one_number(key: Seq<char>, n: i64)
    ensures
        int_in(field(one_number(key, n), key)) == Some(n),
{
    lemma_field_at(one_number(key, n)->Object_0, key, 0, 0);
}

/// A step is called what the protocol calls it, and three steps have three names.
pub proof fn law_a_step_is_called_by_its_name()
    ensures
        step_word(Step::Over) == "next"@,
        step_word(Step::Into) == "stepIn"@,
        step_word(Step::Out) == "stepOut"@,
        step_word(Step::Over) != step_word(Step::Into),
        step_word(Step::Over) != step_word(Step::Out),
        step_word(Step::Into) != step_word(Step::Out),
{
    lemma_names();
}

/// Telling a program to go on, to step or to wait is one request by that name,
/// about the thread that stopped, or else the first there is. A session that is
/// over is told nothing.
pub proof fn law_a_command_is_about_the_thread_that_stopped(s: Sess, what: Seq<char>)
    ensures
        ({
            let now = controlled(Some(s), what, thread_of(Some(s)));
            if s.state is Ended {
                now == Some(s)
            } else {
                now is Some && exists|arguments: Value|
                    {
                        &&& #[trigger] asks(s, now->0, what, arguments, Asked::Control(what))
                        &&& match s.thread {
                            Some(id) => int_in(field(arguments, "threadId"@)) == Some(id),
                            None => s.threads.len() > 0 ==> int_in(field(arguments, "threadId"@))
                                == Some(s.threads[0].0),
                        }
                    }
            }
        }),
{
    let thread = thread_of(Some(s));
    lemma_one_number("threadId"@, thread);
    if !(s.state is Ended) {
        let now = controlled(Some(s), what, thread)->0;
        assert(asks(s, now, what, one_number("threadId"@, thread), Asked::Control(what)));
    }
}

/// A program that stops is said to have, for the reason that is given. The threads
/// are asked for, and the stack of the thread that stopped.
pub proof fn law_a_stop_asks_for_the_stack_of_its_thread(s: Sess, body: Value, id: i64)
    requires
        int_in(field(body, "threadId"@)) == Some(id),
    ensures
        ({
            let now = on_stop(s, body);
            let sent = now.peer.sending;
            let n = s.peer.sending.len() as int;
            &&& now.state is Stopped
            &&& text_in(field(body, "reason"@)) is Some ==> Some(now.state->Stopped_0) == text_in(
                field(body, "reason"@),
            )
            &&& now.thread == Some(id)
            &&& now.frames.len() == 0
            &&& sent.len() == n + 2
            &&& match sent[n] {
                Sent::Request(_, method, _) => method == "threads"@,
                _ => false,
            }
            &&& match sent[n + 1] {
                Sent::Request(_, method, arguments) => method == "stackTrace"@ && int_in(
                    field(arguments, "threadId"@),
                ) == Some(id),
                _ => false,
            }
        }),
{
    lemma_field_at(stack_arguments(id)->Object_0, "threadId"@, 0, 0);
}

// ---------------------------------------------------------------------------
// The stack and what is in it
// ---------------------------------------------------------------------------

/// Whether a text is there and not empty.
pub open spec fn is_some_text(s: Option<Seq<char>>) -> bool {
    s is Some && s->0.len() > 0
}

/// Whether a number is one that a line or a column can have.
pub open spec fn is_line(n: Option<i64>) -> bool {
    n is Some && 1 <= n->0 && n->0 - 1 <= usize::MAX
}

/// Whether a text is there that is short and on one line.
pub open spec fn is_short(s: Option<Seq<char>>) -> bool {
    s is Some && s->0.len() <= crate::dap::VALUE_SHOWN && !s->0.contains('\n')
}

proof fn lemma_frames_of(l: Seq<Value>, n: int)
    requires
        0 <= n <= l.len(),
        forall|i: int| 0 <= i < n ==> int_in(field(#[trigger] l[i], "id"@)) is Some,
    ensures
        frames_of(l, n).len() == n,
        forall|i: int| 0 <= i < n ==> Some(#[trigger] frames_of(l, n)[i]) == frame_of(l[i]),
    decreases n,
{
    if n > 0 {
        lemma_frames_of(l, n - 1);
        assert(int_in(field(l[n - 1], "id"@)) is Some);
    }
}

/// The stack is kept as it is told, the frame at its top first: each frame under
/// its number, in its file, and on the line and the column that are one less than
/// those that are told. The one at the top is looked at, and what is in view there
/// is asked for.
#[verifier::rlimit(40)]
pub proof fn law_the_stack_is_kept_as_it_is_told(s: Sess, answer: Value, i: int)
    requires
        ({
            let l = items_in(answer, "stackFrames"@);
            &&& l.len() > 0
            &&& forall|k: int| 0 <= k < l.len() ==> int_in(field(#[trigger] l[k], "id"@)) is Some
            &&& 0 <= i < l.len()
        }),
    ensures
        ({
            let l = items_in(answer, "stackFrames"@);
            let now = on_stack(s, answer);
            let f = now.frames[i];
            &&& now.frames.len() == l.len()
            &&& Some(f.id) == int_in(field(l[i], "id"@))
            &&& text_in(field(l[i], "name"@)) is Some ==> Some(f.name) == text_in(
                field(l[i], "name"@),
            )
            &&& is_some_text(text_in(field_in(field(l[i], "source"@), "path"@))) ==> f.path
                == text_in(field_in(field(l[i], "source"@), "path"@))
            &&& is_line(int_in(field(l[i], "line"@))) ==> f.line + 1 == int_in(
                field(l[i], "line"@),
            )->0
            &&& is_line(int_in(field(l[i], "column"@))) ==> f.column + 1 == int_in(
                field(l[i], "column"@),
            )->0
            &&& now.frame == Some(now.frames[0].id)
            &&& looked_at(now) == Some(now.frames[0])
            &&& exists|arguments: Value|
                #[trigger] asks(s, now, "scopes"@, arguments, Asked::Scopes) && int_in(
                    field(arguments, "frameId"@),
                ) == Some(now.frames[0].id)
        }),
{
    let l = items_in(answer, "stackFrames"@);
    lemma_frames_of(l, l.len() as int);
    let now = on_stack(s, answer);
    assert(Some(frames_of(l, l.len() as int)[i]) == frame_of(l[i]));
    let top = now.frames[0].id;
    lemma_one_number("frameId"@, top);
    assert(asks(s, now, "scopes"@, one_number("frameId"@, top), Asked::Scopes));
}

proof fn lemma_variables_of(l: Seq<Value>, n: int)
    requires
        0 <= n <= l.len(),
        forall|i: int| 0 <= i < n ==> text_in(field(#[trigger] l[i], "name"@)) is Some,
    ensures
        variables_of(l, n).len() == n,
        forall|i: int| 0 <= i < n ==> Some(#[trigger] variables_of(l, n)[i]) == variable_of(l[i]),
    decreases n,
{
    if n > 0 {
        lemma_variables_of(l, n - 1);
        assert(text_in(field(l[n - 1], "name"@)) is Some);
    }
}

/// What is in a value is kept as it is told, under the number of the value and in
/// the order in which it is told: each under its name, with what it says where that
/// is short and on one line, and with the number to open it by. What is in other
/// values stays.
pub proof fn law_what_is_in_a_value_is_kept_as_it_is_told(
    s: Sess,
    reference: i64,
    answer: Value,
    i: int,
    other: i64,
)
    requires
        ({
            let l = items_in(answer, "variables"@);
            &&& forall|k: int| 0 <= k < l.len() ==> text_in(field(#[trigger] l[k], "name"@)) is Some
            &&& 0 <= i < l.len()
        }),
    ensures
        ({
            let l = items_in(answer, "variables"@);
            let now = after_answer(s, Asked::Variables(reference), answer).0;
            &&& now.values.contains_key(reference)
            &&& now.values[reference].len() == l.len()
            &&& Some(now.values[reference][i].name) == text_in(field(l[i], "name"@))
            &&& is_short(text_in(field(l[i], "value"@))) ==> Some(now.values[reference][i].value)
                == text_in(field(l[i], "value"@))
            &&& int_in(field(l[i], "variablesReference"@)) is Some ==> Some(
                now.values[reference][i].reference,
            ) == int_in(field(l[i], "variablesReference"@))
            &&& other != reference ==> (now.values.contains_key(other) == s.values.contains_key(
                other,
            ) && now.values[other] == s.values[other])
        }),
{
    let l = items_in(answer, "variables"@);
    lemma_variables_of(l, l.len() as int);
    assert(Some(variables_of(l, l.len() as int)[i]) == variable_of(l[i]));
    if let Some(v) = text_in(field(l[i], "value"@)) {
        if !v.contains('\n') {
            let flat = v.map_values(|c: char| if c == '\n' { ' ' } else { c });
            assert(flat =~= v);
        }
    }
}

/// Opening a value and closing it again leaves open what was open. One that is
/// opened for the first time is asked about, by its number.
pub proof fn law_a_value_opens_and_closes(s: Sess, reference: i64)
    requires
        reference != 0,
    ensures
        toggled(toggled(s, reference), reference).open == s.open,
        toggled(s, reference).open.contains(reference) == !s.open.contains(reference),
        !s.open.contains(reference) && !s.values.contains_key(reference) ==> exists|
            arguments: Value,
        | #[trigger]
            asks(s, toggled(s, reference), "variables"@, arguments, Asked::Variables(reference))
                && int_in(field(arguments, "variablesReference"@)) == Some(reference),
        s.open.contains(reference) || s.values.contains_key(reference) ==> toggled(
            s,
            reference,
        ).peer == s.peer,
{
    lemma_one_number("variablesReference"@, reference);
    assert(toggled(toggled(s, reference), reference).open =~= s.open);
    if !s.open.contains(reference) && !s.values.contains_key(reference) {
        assert(asks(
            s,
            toggled(s, reference),
            "variables"@,
            one_number("variablesReference"@, reference),
            Asked::Variables(reference),
        ));
    }
}

/// An expression is asked about in the frame that is looked at.
pub proof fn law_an_expression_is_asked_about_in_its_frame(what: Seq<char>, frame: Option<i64>)
    ensures
        text_in(field(question(what, frame), "expression"@)) == Some(what),
        frame is Some ==> int_in(field(question(what, frame), "frameId"@)) == frame,
{
    lemma_names();
    let fs = question(what, frame)->Object_0;
    lemma_field_at(fs, "expression"@, 0, 0);
    lemma_field_at(fs, "frameId"@, 0, 1);
}

proof fn lemma_frame_with(fs: Seq<FrameAt>, id: i64, i: int)
    requires
        0 <= i <= fs.len(),
    ensures
        match frame_with(fs, id, i) {
            Some(f) => f.id == id && fs.contains(f),
            None => forall|k: int| i <= k < fs.len() ==> (#[trigger] fs[k]).id != id,
        },
    decreases fs.len() - i,
{
    if i < fs.len() && fs[i].id != id {
        lemma_frame_with(fs, id, i + 1);
    }
}

/// The frame that is looked at is one of the stack, the one that was chosen.
pub proof fn law_the_frame_looked_at_is_the_one_chosen(s: Sess)
    ensures
        match looked_at(s) {
            Some(f) => s.frame == Some(f.id) && s.frames.contains(f),
            None => s.frame is Some ==> forall|k: int|
                0 <= k < s.frames.len() ==> (#[trigger] s.frames[k]).id != s.frame->0,
        },
{
    if let Some(id) = s.frame {
        lemma_frame_with(s.frames, id, 0);
    }
}

// ---------------------------------------------------------------------------
// What is said of the program
// ---------------------------------------------------------------------------

/// A program that has exited is over, with nothing left of where it stood, and is said
/// to have finished only where its code is nought.
pub proof fn law_a_program_that_exits_is_over(
    s: Sess,
    body: Value,
    code: i64,
    bs: Seq<(Seq<char>, Seq<usize>)>,
)
    requires
        !(s.state is Ended),
        int_in(field(body, "exitCode"@)) == Some(code),
    ensures
        ({
            let now = after_event(s, "exited"@, body, bs).0;
            &&& now.state is Ended
            &&& now.state->Ended_0 == if code == 0 {
                "finished"@
            } else {
                "exited "@ + crate::json::signed(code as int)
            }
            &&& now.frames.len() == 0 && now.scopes.len() == 0 && now.frame is None
        }),
{
    reveal_strlit("initialized");
    reveal_strlit("stopped");
    reveal_strlit("continued");
    reveal_strlit("output");
    reveal_strlit("terminated");
    reveal_strlit("exited");
    assert("initialized"@.len() == 11 && "stopped"@.len() == 7 && "continued"@.len() == 9);
    assert("terminated"@.len() == 10 && "exited"@.len() == 6 && "output"@.len() == 6);
    assert("output"@[0] == 'o' && "exited"@[0] == 'e');
}

/// A line that the program prints is kept last, as it was printed and by where it was
/// printed to.
pub proof fn law_what_is_printed_is_kept(s: Sess, body: Value, text: Seq<char>)
    requires
        s.answered,
        text_in(field(body, "output"@)) == Some(text),
        text_in(field(body, "category"@)) != Some("telemetry"@),
        !text.contains('\n'),
    ensures
        ({
            let now = crate::dap::on_print(s, body);
            &&& now.output.len() > 0
            &&& now.output.last().0 == text
            &&& now.output.last().1 == if text_in(field(body, "category"@)) == Some("stderr"@) {
                crate::dap::Printer::Stderr
            } else {
                crate::dap::Printer::Out
            }
        }),
{
    reveal_strlit("telemetry");
    reveal_strlit("stderr");
    assert("telemetry"@.len() == 9 && "stderr"@.len() == 6);
    lemma_one_piece(text);
    assert(crate::dap::unended(text) == text) by {
        if text.len() > 0 {
            assert(text[text.len() - 1] != '\n');
        }
    }
    let ls = seq![text];
    let from = if text_in(field(body, "category"@)) == Some("stderr"@) {
        crate::dap::Printer::Stderr
    } else {
        crate::dap::Printer::Out
    };
    assert(crate::dap::with_lines(s, ls, from, 0) == s);
    assert(crate::dap::with_lines(s, ls, from, 1) == crate::dap::with_line(s, text, from));
}

proof fn lemma_one_piece(s: Seq<char>)
    requires
        !s.contains('\n'),
    ensures
        crate::split::cut(s, '\n') == seq![s],
    decreases s.len(),
{
    if s.len() > 0 {
        assert(s[s.len() - 1] != '\n');
        let less = s.drop_last();
        assert forall|i: int| 0 <= i < less.len() implies less[i] != '\n' by {
            assert(less[i] == s[i]);
        }
        lemma_one_piece(less);
        assert(less.push(s.last()) =~= s);
        assert(seq![less].update(0, less.push(s.last())) =~= seq![s]);
    } else {
        assert(s =~= Seq::<char>::empty());
    }
}

} // verus!
