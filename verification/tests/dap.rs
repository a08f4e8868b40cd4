//! Debugging: what an adapter says and what is said to it.
use std::collections::{BTreeMap, HashSet};
use textfold::attach::{
    about_process, at_address, fold_into_launch, merge, needs_a_process, needs_an_address,
    suggested_address,
};
use textfold::dap::{
    not_installed, not_listening, read_frames, read_variables, Change, Debugger, Printer,
    Session, SessionId, State, Step, VALUE_SHOWN,
};
use textfold::json::{show, Json};
use textfold::launch::{filled, where_from, Adapter, Resolve};
use textfold::rpc::{Incoming, Peer, Sending};
use textfold::vars::Environment;

fn convert(v: &serde_json::Value) -> Json {
    match v {
        serde_json::Value::Null => Json::Null,
        serde_json::Value::Bool(b) => Json::Bool(*b),
        serde_json::Value::Number(n) => match (n.as_u64(), n.as_i64()) {
            (Some(u), _) => Json::Natural(u),
            (None, Some(i)) => Json::Negative(i),
            _ => Json::Fraction(n.to_string()),
        },
        serde_json::Value::String(s) => Json::Text(s.clone()),
        serde_json::Value::Array(items) => Json::List(items.iter().map(convert).collect()),
        serde_json::Value::Object(fields) => {
            Json::Object(fields.iter().map(|(k, v)| (k.clone(), convert(v))).collect())
        }
    }
}

fn json(text: &str) -> Json {
    let read: serde_json::Value = serde_json::from_str(text).expect("a value");
    convert(&read)
}

/// What a field holds, written out.
fn at(j: &Json, key: &str) -> Option<String> {
    j.get(key).map(show)
}

fn adapter(id: &str, command: &str, args: &[&str], launch: &str) -> Adapter {
    Adapter {
        id: id.to_string(),
        name: id.rsplit('/').next().unwrap_or(id).to_string(),
        command: command.to_string(),
        args: args.iter().map(|a| a.to_string()).collect(),
        roots: vec![".git".to_string()],
        launch: json(launch),
        attach: None,
        from_server: None,
        see: None,
        env: vec![],
    }
}

fn a_session() -> Session {
    Session {
        id: SessionId(1),
        name: "test".to_string(),
        what: "main.py".to_string(),
        state: State::Stopped("breakpoint".to_string()),
        caps: Json::Null,
        start: ("launch", json("{}")),
        configured: true,
        answered: true,
        see: None,
        adapter: "test/quiet".to_string(),
        ran: "cat".to_string(),
        from: Some("a test".to_string()),
        threads: vec![],
        thread: None,
        frames: vec![],
        frame: None,
        scopes: vec![],
        values: BTreeMap::new(),
        open: HashSet::new(),
        output: vec![],
        verified: vec![],
        complaints: vec![],
        peer: Peer::new(),
    }
}

fn all_printed(session: &Session) -> String {
    session.output.iter().map(|p| p.text.clone()).collect::<Vec<_>>().join("\n")
}

fn note(method: &str, params: &str) -> Incoming {
    Incoming::Notification { method: method.to_string(), params: json(params) }
}

/// A debugger whose adapter has been started.
fn begun(config: &Adapter, complaints: &[&str]) -> (Debugger, SessionId) {
    let mut debug = Debugger::new();
    let (id, past) = debug.start();
    assert!(past.is_none());
    let ready = filled(config, "/p", "/p/main.py", &None, &None, &None);
    let from = where_from(config, &None);
    debug.begin(id, config, &ready, "/p/main.py", &Some("/bin/sh".to_string()), from);
    debug.session.as_mut().expect("a session").complaints =
        complaints.iter().map(|c| c.to_string()).collect();
    (debug, id)
}

const STACK: &str = r#"{ "stackFrames": [
    { "id": 2, "name": "fizz", "line": 4, "column": 1, "source": { "path": "/p/main.py" } },
    { "id": 3, "name": "main", "line": 9, "column": 1, "source": { "path": "/p/main.py" } },
    { "id": 4, "name": "<module>", "line": 13, "column": 1 }
]}"#;

#[test]
fn a_stack_is_read_in_the_editors_own_counting() {
    // The protocol counts lines from one and the editor counts from zero.
    let frames = read_frames(&json(STACK));
    assert_eq!(frames.len(), 3);
    assert_eq!(frames[0].name, "fizz");
    assert_eq!(frames[0].line, 3);
    assert_eq!(frames[0].column, 0);
    assert_eq!(frames[0].path.as_deref(), Some("/p/main.py"));
}

#[test]
fn a_frame_with_no_file_is_still_a_frame() {
    let frames = read_frames(&json(STACK));
    assert_eq!(frames[2].name, "<module>");
    assert_eq!(frames[2].path, None);
}

#[test]
fn a_frame_with_a_line_of_zero_does_not_go_round_the_houses() {
    let frames = read_frames(&json(
        r#"{ "stackFrames": [{ "id": 1, "name": "x", "line": 0, "column": 0 }]}"#,
    ));
    assert_eq!(frames[0].line, 0);
    assert_eq!(frames[0].column, 0);
}

#[test]
fn a_value_that_can_be_opened_says_so() {
    let read = read_variables(&json(
        r#"{ "variables": [
            { "name": "n", "value": "5", "type": "int", "variablesReference": 0 },
            { "name": "xs", "value": "[1, 2]", "type": "list", "variablesReference": 7 }
        ]}"#,
    ));
    assert_eq!(read[0].reference, 0, "a number has nothing inside it");
    assert_eq!(read[1].reference, 7);
    assert_eq!(read[1].kind.as_deref(), Some("list"));
}

#[test]
fn a_value_too_long_to_read_is_cut_to_a_length_somebody_can() {
    let huge = "x".repeat(4000);
    let text = format!(
        "{{ \"variables\": [{{ \"name\": \"__builtins__\", \"value\": \"{huge}\", \
         \"variablesReference\": 7 }}]}}"
    );
    let read = read_variables(&json(&text));
    assert!(
        read[0].value.chars().count() <= VALUE_SHOWN,
        "{} characters",
        read[0].value.chars().count()
    );
    // And it says it was cut rather than pretending that is the value.
    assert!(read[0].value.ends_with('…'), "{:?}", read[0].value);
    // What was cut is still reachable: it has something inside it.
    assert_eq!(read[0].reference, 7);
}

#[test]
fn a_value_short_enough_to_read_is_left_exactly_as_it_is() {
    let read = read_variables(&json(
        r#"{ "variables": [{ "name": "n", "value": "5", "variablesReference": 0 }]}"#,
    ));
    assert_eq!(read[0].value, "5");
}

#[test]
fn a_value_with_newlines_in_it_stays_one_line() {
    let read = read_variables(&json(
        r#"{ "variables": [{ "name": "s", "value": "one\ntwo", "variablesReference": 0 }]}"#,
    ));
    assert_eq!(read[0].value, "one two");
}

#[test]
fn an_address_reaches_an_adapter_as_a_host_and_a_number() {
    let attach = json(
        r#"{ "request": "attach", "hostName": "${host}", "port": "${port}",
             "note": "waiting on ${host}:${port}" }"#,
    );
    let filled = at_address(&attach, "10.0.0.2", 5099);
    assert_eq!(at(&filled, "hostName").as_deref(), Some("\"10.0.0.2\""));
    // A port is a number for the same reason a pid is.
    assert!(matches!(filled.get("port"), Some(Json::Natural(5099))), "{filled:?}");
    assert_eq!(at(&filled, "note").as_deref(), Some("\"waiting on 10.0.0.2:5099\""));
}

#[test]
fn a_value_is_written_with_its_texts_in_quotes() {
    let said = json(r#"{ "a": ["x", 1, -2, true, null], "b": "\"\\\n\u0001é" }"#);
    assert_eq!(show(&said), r#"{"a":["x",1,-2,true,null],"b":"\"\\\n\u0001é"}"#);
}

#[test]
fn only_a_whole_placeholder_loses_what_it_suggests() {
    let said = |text: &str| match at_address(&Json::Text(text.to_string()), "h", 7) {
        Json::Text(text) => text,
        other => panic!("{other:?}"),
    };
    assert_eq!(said("waiting on ${host:me} port ${port"), "waiting on h port ${port");
    assert_eq!(said("${host:me}:${port:5678}"), "h:7");
    assert_eq!(said("a ${b c"), "a ${b c");
    assert!(matches!(
        at_address(&Json::Text("${port:5678}".to_string()), "h", 7),
        Json::Natural(7)
    ));
}

#[test]
fn a_manifest_decides_whether_it_is_asked_where_to_attach() {
    assert!(needs_an_address(&json(r#"{ "port": "${port}" }"#)));
    assert!(needs_an_address(&json(r#"{ "listen": { "host": "${host}" } }"#)));
    assert!(!needs_an_address(&json(r#"{ "port": 5005 }"#)));
    // And neither kind of address is a process to pick out of a list.
    assert!(!needs_a_process(&json(r#"{ "port": "${port}" }"#)));
    assert!(needs_a_process(&json(r#"{ "pid": "${pid}" }"#)));
}

#[test]
fn a_process_id_reaches_an_adapter_as_a_number() {
    let attach = json(r#"{ "request": "attach", "program": "${program}", "pid": "${pid}" }"#);
    let filled = about_process(&attach, 4127, Some("/usr/bin/thing"));
    assert!(matches!(filled.get("pid"), Some(Json::Natural(4127))), "{filled:?}");
    assert_eq!(at(&filled, "program").as_deref(), Some("\"/usr/bin/thing\""));
    assert_eq!(at(&filled, "request").as_deref(), Some("\"attach\""));
}

#[test]
fn a_process_id_inside_a_longer_argument_is_still_the_digits() {
    let attach = json(r#"{ "args": ["--pid=${pid}", "--exe", "${program}"] }"#);
    let filled = about_process(&attach, 22, Some("/bin/ls"));
    assert_eq!(
        at(&filled, "args"),
        Some(show(&json(r#"["--pid=22", "--exe", "/bin/ls"]"#)))
    );
}

#[test]
fn a_field_wanting_a_program_we_cannot_name_is_dropped_rather_than_emptied() {
    let attach = json(r#"{ "request": "attach", "program": "${program}", "pid": "${pid}" }"#);
    let filled = about_process(&attach, 7, None);
    assert!(filled.get("program").is_none(), "{filled:?}");
    assert!(matches!(filled.get("pid"), Some(Json::Natural(7))));
}

#[test]
fn a_launch_object_says_which_of_the_two_requests_it_is() {
    let mut config = adapter("python/debugpy", "python3", &[], r#"{ "program": "${file}" }"#);
    assert_eq!(config.request(), "launch", "saying nothing means launch");
    config.launch = json(r#"{ "request": "attach", "port": 5678 }"#);
    assert_eq!(config.request(), "attach");
}

#[test]
fn the_file_being_debugged_is_what_dollar_file_means() {
    let config = adapter(
        "python/debugpy",
        "python3",
        &["-m", "debugpy.adapter"],
        r#"{ "program": "${file}", "cwd": "${root}" }"#,
    );
    let filled = filled(&config, "/p", "/p/src/main.py", &None, &None, &None);
    assert_eq!(at(&filled.launch, "program").as_deref(), Some("\"/p/src/main.py\""));
    assert_eq!(at(&filled.launch, "cwd").as_deref(), Some("\"/p\""));
}

#[test]
fn what_a_jvm_is_told_to_run_is_the_qualified_class() {
    let config = adapter(
        "java/java-debug",
        "",
        &[],
        r#"{ "mainClass": "${file_class}", "cwd": "${root}" }"#,
    );
    let source = Some("package com.example.calc;\n\nclass Main {}\n".to_string());
    let file = "/w/src/main/java/com/example/calc/Main.java";
    let packaged = filled(&config, "/w", file, &None, &source, &None);
    assert_eq!(at(&packaged.launch, "mainClass").as_deref(), Some("\"com.example.calc.Main\""));

    // And a file in the default package is still its own bare name.
    let bare = Some("class Scratch {}\n".to_string());
    let default_package = filled(&config, "/w", "/w/Scratch.java", &None, &bare, &None);
    assert_eq!(at(&default_package.launch, "mainClass").as_deref(), Some("\"Scratch\""));
}

#[test]
fn nothing_a_command_is_run_with_is_left_as_a_placeholder() {
    // `${python}` in a directory with no virtual environment under it: the
    // ordinary script in an ordinary directory is exactly the thing somebody
    // wants to debug.
    let config = adapter("python/debugpy", "${python}", &[], "{}");
    let bare = filled(&config, "/nowhere-at-all", "/nowhere-at-all/a.py", &None, &None, &None);
    assert!(
        !bare.command.contains("${"),
        "a command with a placeholder still in it is a program that cannot be run at all: {:?}",
        bare.command
    );
    // And with one, the command is its interpreter.
    let env = Some(Environment {
        root: "/p/.venv".to_string(),
        python: "/p/.venv/bin/python3".to_string(),
        about: ".venv".to_string(),
    });
    let inside = filled(&config, "/p", "/p/a.py", &env, &None, &None);
    assert_eq!(inside.command, "/p/.venv/bin/python3");
}

#[test]
fn an_adapter_that_will_not_start_says_what_it_printed() {
    let mut config = adapter(
        "test/nope",
        "sh",
        &["-c", "echo 'No module named nope' >&2; exit 1"],
        "{}",
    );
    config.see = Some("get it from somewhere".to_string());
    let (mut debug, id) = begun(&config, &["No module named nope"]);
    debug.on(id, Incoming::Exited("stopped".to_string()), &vec![]);

    let session = debug.session().expect("a session");
    assert!(
        !session.ever_started(),
        "it never answered initialize, so it never was a debugger"
    );
    assert_eq!(session.state, State::Ended("would not start".to_string()));
    assert!(
        session.why_not().is_some_and(|why| why.contains("No module named nope")),
        "the one line worth showing should be what it actually said"
    );
    let said = all_printed(session);
    assert!(said.contains("No module named nope"), "{said:?}");
    // What was actually run, resolved.
    assert!(said.contains("textfold ran: /"), "not a full path: {said:?}");
    assert!(said.contains("sh -c"), "{said:?}");
    // And *not* where a Python came from: this adapter never asked for one.
    assert!(!said.contains("environment"), "{said:?}");
    assert!(!said.contains("from the PATH"), "{said:?}");
    // What the manifest says to do about it.
    assert!(said.contains("get it from somewhere"), "{said:?}");
    // And the way to point it somewhere else.
    assert!(said.contains("\"debuggers\": {\"nope\""), "{said:?}");
    assert!(said.contains("the test plugin"), "{said:?}");
}

#[test]
fn an_adapter_run_out_of_an_environment_says_which_one() {
    // `${python}` in the manifest is the adapter saying it is run by the
    // project's interpreter, and which one that turned out to be is the single
    // most useful line in the report.
    let config =
        adapter("test/nope", "sh", &["-c", "echo 'no debugpy here' >&2; exit 1", "${python}"], "{}");
    let (mut debug, id) = begun(&config, &["no debugpy here"]);
    debug.on(id, Incoming::Exited("stopped".to_string()), &vec![]);
    let said = all_printed(debug.session().expect("a session"));
    assert!(said.contains("from the PATH"), "{said:?}");
}

#[test]
fn an_adapter_that_dies_saying_nothing_still_says_that_much() {
    let config = adapter("test/quiet", "sh", &["-c", "exit 3"], "{}");
    let (mut debug, id) = begun(&config, &[]);
    debug.on(id, Incoming::Exited("stopped".to_string()), &vec![]);
    let said = all_printed(debug.session().expect("a session"));
    assert!(said.contains("without saying anything"), "{said:?}");
    assert!(said.contains("sh -c"), "{said:?}");
}

#[test]
fn the_session_before_this_one_cannot_end_it() {
    // Starting a session stops the one before it, and its dying gasp lands
    // after the new session has been made.
    let config = adapter("test/waits", "cat", &[], "{}");
    let mut debug = Debugger::new();
    let (first, past) = debug.start();
    assert!(past.is_none());
    debug.begin(first, &config, &config, "/p/main.py", &None, None);
    let (second, past) = debug.start();
    assert!(past.is_some(), "the one before is handed back to be put down");
    debug.begin(second, &config, &config, "/p/main.py", &None, None);
    assert_ne!(first, second, "a restart is a new session");

    assert_eq!(
        debug.on(first, Incoming::Exited("stopped".to_string()), &vec![]),
        Change::Nothing
    );
    assert!(
        !debug.session().expect("a session").state.is_over(),
        "the session that is actually running should still be running"
    );

    // And the one that really is about this session still lands.
    assert_eq!(
        debug.on(second, Incoming::Exited("stopped".to_string()), &vec![]),
        Change::Ended
    );
    assert!(debug.session().expect("a session").state.is_over());
}

#[test]
fn a_reason_a_session_ended_for_is_not_replaced_by_a_vaguer_one() {
    // `terminated` follows `exited 3`, and the first thing that went wrong is
    // the thing worth saying.
    let mut debug = Debugger::new();
    let mut session = a_session();
    let id = session.id;
    session.state = State::Running;
    debug.session = Some(session);

    debug.on(id, note("exited", r#"{ "exitCode": 3 }"#), &vec![]);
    assert_eq!(
        debug.session().expect("a session").state,
        State::Ended("exited 3".to_string())
    );
    debug.on(id, note("terminated", "null"), &vec![]);
    assert_eq!(
        debug.session().expect("a session").state,
        State::Ended("exited 3".to_string()),
        "the specific reason should survive the vague one that follows it"
    );
}

#[test]
fn a_breakpoint_the_adapter_would_not_take_is_known_to_be_unset() {
    let mut debug = Debugger::new();
    // With no session nothing has been asked, and a breakpoint is neither
    // confirmed nor refused.
    assert_eq!(debug.is_verified("/p/main.py", 3), None);

    debug.session = Some(a_session());
    // Nor before the file has been sent.
    assert_eq!(debug.is_verified("/p/main.py", 3), None);

    let session = debug.session.as_mut().expect("a session");
    session.verified = vec![("/p/main.py".to_string(), vec![3])];
    assert_eq!(debug.is_verified("/p/main.py", 3), Some(true));
    assert_eq!(debug.is_verified("/p/main.py", 5), Some(false));
    // And a session that is over says nothing about anything.
    debug.session.as_mut().expect("a session").state = State::Ended("finished".to_string());
    assert_eq!(debug.is_verified("/p/main.py", 5), None);
}

#[test]
fn what_a_state_is_called_is_what_it_says() {
    assert_eq!(State::Stopped("breakpoint".to_string()).label(), "breakpoint");
    assert!(State::Stopped("step".to_string()).is_stopped());
    assert!(State::Ended("finished".to_string()).is_over());
    assert!(!State::Running.is_stopped());
}

/// The number of the last message of a name.
fn asked(debug: &Debugger, what: &str) -> i64 {
    let session = debug.session().expect("a session");
    session
        .peer
        .sending
        .iter()
        .rev()
        .find_map(|s| match s {
            Sending::Request { id, method, .. } if method == what => Some(*id),
            Sending::Notify { method, .. } if method == what => Some(0),
            _ => None,
        })
        .unwrap_or_else(|| panic!("{what} was not asked: {:?}", session.peer.sending))
}

fn answer(debug: &mut Debugger, id: SessionId, to: &str, result: &str) -> Change {
    let request = asked(debug, to);
    let lines = vec![("/p/main.py".to_string(), vec![1])];
    debug.on(id, Incoming::Response { id: request, result: Ok(json(result)) }, &lines)
}

#[test]
fn an_adapter_is_spoken_to_in_an_order_it_accepts() {
    let config = adapter(
        "python/debugpy",
        "python3",
        &["-m", "debugpy.adapter"],
        r#"{ "request": "launch", "program": "${file}" }"#,
    );
    let lines = vec![("/p/main.py".to_string(), vec![1])];
    let (mut debug, id) = begun(&config, &[]);
    answer(&mut debug, id, "initialize", r#"{ "supportsConfigurationDoneRequest": true }"#);
    assert!(debug.session().expect("a session").can("supportsConfigurationDoneRequest"));
    // The program is asked for, and the breakpoints wait until the adapter
    // says it is ready.
    asked(&debug, "launch");
    let session = debug.session().expect("a session");
    assert!(!session
        .peer
        .sending
        .iter()
        .any(|s| matches!(s, Sending::Request { method, .. } if method == "setBreakpoints")));
    debug.on(id, note("initialized", "null"), &lines);
    asked(&debug, "setBreakpoints");
    answer(
        &mut debug,
        id,
        "setBreakpoints",
        r#"{ "breakpoints": [{ "verified": true, "line": 2 }] }"#,
    );
    asked(&debug, "configurationDone");
    assert_eq!(debug.is_verified("/p/main.py", 1), Some(true));

    // It stops, and the stack and what is in it are asked for in turn.
    // There is nowhere to go until the stack arrives.
    assert_eq!(
        debug.on(id, note("stopped", r#"{ "reason": "breakpoint", "threadId": 1 }"#), &lines),
        Change::Nothing
    );
    assert_eq!(answer(&mut debug, id, "stackTrace", STACK), Change::Stopped);
    let session = debug.session().expect("a session");
    assert_eq!(session.state, State::Stopped("breakpoint".to_string()));
    assert_eq!(session.here(), Some(("/p/main.py".to_string(), 3, 0)));
    answer(
        &mut debug,
        id,
        "scopes",
        r#"{ "scopes": [{ "name": "Locals", "variablesReference": 8, "expensive": false }] }"#,
    );
    answer(
        &mut debug,
        id,
        "variables",
        r#"{ "variables": [{ "name": "n", "value": "5", "variablesReference": 0 }] }"#,
    );
    assert_eq!(debug.session().expect("a session").values[&8][0].value, "5");

    // Going on, and to the end.
    debug.step(Step::Over);
    asked(&debug, "next");
    debug.resume();
    asked(&debug, "continue");
    debug.on(
        id,
        note("output", r#"{ "category": "stdout", "output": "answer 10\n" }"#),
        &lines,
    );
    assert_eq!(debug.on(id, note("terminated", "null"), &lines), Change::Ended);
    let session = debug.session().expect("a session");
    assert!(session.program_printed().contains("answer 10"));
    assert!(session.output.iter().any(|p| p.from == Printer::Out));
}

#[test]
fn a_program_we_only_attached_to_is_not_asked_to_stop() {
    for (request, ours) in [("launch", true), ("attach", false)] {
        let mut debug = Debugger::new();
        let mut session = a_session();
        session.start = (request, json("{}"));
        debug.session = Some(session);
        let past = debug.stop().expect("a session");
        assert!(
            past.peer
                .sending
                .iter()
                .any(|s| matches!(s, Sending::Disconnect { ours: said } if *said == ours)),
            "{request}: {:?}",
            past.peer.sending
        );
    }
}

#[test]
fn what_a_server_answers_goes_where_the_manifest_said() {
    let resolve = Resolve {
        command: "java.project.getClasspaths".to_string(),
        arguments: vec![],
        into: vec![
            ("classPaths".to_string(), "classpaths".to_string()),
            ("modulePaths".to_string(), "modulepaths".to_string()),
        ],
    };
    let mut launch = json(r#"{ "request": "launch", "mainClass": "Main" }"#);
    fold_into_launch(
        &mut launch,
        &resolve,
        &json(r#"{ "classpaths": ["/w/bin"], "modulepaths": [], "projectRoot": "file:/w" }"#),
    );
    assert_eq!(at(&launch, "classPaths"), Some(show(&json(r#"["/w/bin"]"#))));
    assert_eq!(at(&launch, "modulePaths"), Some(show(&json("[]"))));
    assert_eq!(at(&launch, "mainClass").as_deref(), Some("\"Main\""), "and it left the rest alone");
    // What the answer did not mention is not set to null.
    assert!(launch.get("projectRoot").is_none());
}

#[test]
fn a_field_a_server_said_nothing_about_is_left_alone() {
    let resolve = Resolve {
        command: "x".to_string(),
        arguments: vec![],
        into: vec![("classPaths".to_string(), "classpaths".to_string())],
    };
    let mut launch = json(r#"{ "classPaths": ["already"] }"#);
    fold_into_launch(&mut launch, &resolve, &json(r#"{ "something": "else" }"#));
    assert_eq!(at(&launch, "classPaths"), Some(show(&json(r#"["already"]"#))));
}

#[test]
fn capabilities_arriving_later_are_added_to_rather_than_swapped_in() {
    let mut caps = json(r#"{ "supportsConfigurationDoneRequest": true }"#);
    merge(&mut caps, &json(r#"{ "supportsStepBack": true }"#));
    assert!(matches!(caps.get("supportsConfigurationDoneRequest"), Some(Json::Bool(true))));
    assert!(matches!(caps.get("supportsStepBack"), Some(Json::Bool(true))));
}

#[test]
fn a_port_a_manifest_names_is_suggested() {
    assert_eq!(suggested_address(&json(r#"{ "port": "${port}" }"#)), None);
    assert_eq!(
        suggested_address(&json(r#"{ "port": "${port:5005}" }"#)),
        Some(("127.0.0.1".to_string(), 5005))
    );
    assert_eq!(
        suggested_address(&json(r#"{ "host": "${host:box}", "port": "${port:9}" }"#)),
        Some(("box".to_string(), 9))
    );
    assert_eq!(suggested_address(&json(r#"{ "port": "${port:70000}" }"#)), None);
}

#[test]
fn what_could_not_be_reached_is_named() {
    assert!(not_installed("gdb").contains("gdb"));
    assert!(not_listening(5005).contains("5005"));
}

#[test]
fn what_is_asked_of_a_stopped_program() {
    let mut debug = Debugger::new();
    let mut session = a_session();
    session.frame = Some(2);
    session.frames = read_frames(&json(STACK));
    session.thread = Some(1);
    debug.session = Some(session);
    assert!(debug.is_running());
    debug.evaluate("n + 1");
    asked(&debug, "evaluate");
    debug.select_frame(3);
    asked(&debug, "scopes");
    assert_eq!(debug.session().and_then(|s| s.selected()).map(|f| f.name.as_str()), Some("main"));
    debug.toggle_value(8);
    asked(&debug, "variables");
    assert!(debug.session().expect("a session").open.contains(&8));
    debug.toggle_value(8);
    assert!(!debug.session().expect("a session").open.contains(&8));
    debug.pause();
    asked(&debug, "pause");
    assert!(!debug.session().expect("a session").has_printed());
}

#[test]
fn breakpoints_wait_until_the_adapter_is_ready() {
    let config = adapter("python/debugpy", "python3", &[], "{}");
    let (mut debug, id) = begun(&config, &[]);
    let lines = vec![("/p/main.py".to_string(), vec![1])];
    debug.send_breakpoints(&lines);
    let sent = |d: &Debugger| {
        d.session()
            .expect("a session")
            .peer
            .sending
            .iter()
            .filter(|s| matches!(s, Sending::Request { method, .. } if method == "setBreakpoints"))
            .count()
    };
    assert_eq!(sent(&debug), 0);
    debug.on(id, note("initialized", "null"), &lines);
    assert_eq!(sent(&debug), 1);
    // Taking the last one in a file away means naming a file that has none.
    answer(&mut debug, id, "setBreakpoints", r#"{ "breakpoints": [{ "verified": true, "line": 2 }] }"#);
    debug.send_breakpoints(&vec![]);
    assert_eq!(sent(&debug), 2);
}

#[test]
fn no_more_is_kept_of_what_was_printed_than_somebody_reads() {
    let mut debug = Debugger::new();
    let mut session = a_session();
    session.state = State::Running;
    let id = session.id;
    debug.session = Some(session);
    for n in 0..500 {
        let said = format!("{{ \"category\": \"stdout\", \"output\": \"line {n}\\n\" }}");
        debug.on(id, note("output", &said), &vec![]);
    }
    let output = &debug.session().expect("a session").output;
    assert_eq!(output.len(), textfold::dap::OUTPUT_KEPT);
    assert_eq!(output.last().map(|p| p.text.as_str()), Some("line 499"));
}
