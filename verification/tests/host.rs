use textfold::client::nothing;
use textfold::doc::{DocId, Document};
use textfold::host::{
    not_installed, not_starting, wanted, Activate, Ask, Command, HostId, Hosts, CRASH_WINDOW,
    GIVE_UP_AFTER,
};
use textfold::indent::Indent;
use textfold::json::{as_str, show, string, Json};
use textfold::rpc::Sending;

fn sent(hosts: &Hosts, at: usize) -> Vec<String> {
    hosts.hosts[at]
        .peer
        .sending
        .iter()
        .map(|s| match s {
            Sending::Request { method, params, .. } => format!("{method}? {}", show(params)),
            Sending::Notify { method, params } => format!("{method} {}", show(params)),
            Sending::Answer { id, result } => format!("answer {} {}", show(id), show(result)),
            Sending::Refuse { code, message, .. } => format!("refuse {code} {message}"),
            Sending::Disconnect { .. } => "disconnect".to_string(),
            Sending::Stop => "stop".to_string(),
        })
        .collect()
}

fn file(path: &str) -> Document {
    let mut d = Document::scratch(DocId(1), "a".to_string(), Indent::Tabs);
    d.path = Some(path.to_string());
    d
}

fn one(wants: &[&str]) -> Hosts {
    let mut hosts = Hosts::new();
    let wants: Vec<String> = wants.iter().map(|w| w.to_string()).collect();
    let id = hosts.started("cargo", "/p", &wants, &None, 7, "1.0");
    assert_eq!(id, HostId(0));
    hosts
}

#[test]
fn a_host_that_keeps_falling_over_is_left_alone() {
    let mut hosts = Hosts::new();
    assert!(!hosts.given_up_on("stm32", 0));
    for _ in 0..GIVE_UP_AFTER {
        hosts.note_crash("stm32", "/tmp", 0);
    }
    assert!(hosts.given_up_on("stm32", 0));
    hosts.stop_plugin("stm32");
    assert!(!hosts.given_up_on("stm32", 0));
}

#[test]
fn one_bad_day_is_not_a_broken_plugin() {
    let mut hosts = Hosts::new();
    hosts.note_crash("stm32", "/tmp", 0);
    let now = CRASH_WINDOW * 2;
    for _ in 0..GIVE_UP_AFTER - 1 {
        hosts.note_crash("stm32", "/tmp", now);
    }
    assert!(!hosts.given_up_on("stm32", now), "the old crash was counted");
}

#[test]
fn giving_up_does_not_last_longer_than_the_window() {
    let mut hosts = Hosts::new();
    for _ in 0..GIVE_UP_AFTER {
        hosts.note_crash("stm32", "/tmp", 5);
    }
    assert!(!hosts.wake("stm32", "/tmp", 5));
    assert!(hosts.wake("stm32", "/elsewhere", 5));
    assert!(hosts.wake("stm32", "/tmp", 5 + CRASH_WINDOW));
}

#[test]
fn a_host_is_said_hello_to_and_told_the_rest_when_it_is_ready() {
    let mut hosts = one(&[]);
    assert_eq!(
        sent(&hosts, 0),
        ["initialize? {\"processId\":7,\"client\":{\"name\":\"textfold\",\"version\":\"1.0\"},\
          \"root\":\"/p\",\"capabilities\":{\"status\":true,\"buffers\":{\"show\":true}},\
          \"settings\":null}"]
    );
    assert!(!hosts.wake("cargo", "/p/", 0), "one is running there");
    let build = Command { id: "build".into(), plugin: "cargo".into(), opens_panel: false };
    hosts.run(&build, "/p", nothing());
    assert_eq!(sent(&hosts, 0).len(), 1, "it is not ready yet");
    hosts.ready(HostId(0));
    assert_eq!(
        sent(&hosts, 0)[1..],
        ["initialized {}", "command/run? {\"id\":\"build\",\"context\":{}}"]
    );
    let tree = Command { id: "tree".into(), plugin: "cargo".into(), opens_panel: true };
    hosts.run(&tree, "/p", nothing());
    assert_eq!(sent(&hosts, 0)[3], "panel/opened {\"panel\":\"tree\",\"context\":{}}");
}

#[test]
fn an_answer_is_claimed_once() {
    let mut hosts = one(&[]);
    assert!(matches!(hosts.hosts[0].claim(1), Some(Ask::Initialize)));
    assert!(hosts.hosts[0].claim(1).is_none());
}

#[test]
fn only_a_plugin_that_asked_hears_of_a_file() {
    let mut hosts = one(&["rust"]);
    hosts.started("other", "/p", &Vec::new(), &None, 7, "1.0");
    hosts.ready(HostId(0));
    hosts.ready(HostId(1));
    let doc = file("/p/a.rs");
    hosts.opened_buffer(&doc, "Rust");
    hosts.opened_buffer(&doc, "Rust");
    hosts.saved(&doc);
    hosts.closed("/p/a.rs");
    hosts.closed("/p/a.rs");
    assert_eq!(
        sent(&hosts, 0)[2..],
        [
            "buffer/opened {\"path\":\"/p/a.rs\",\"language\":\"Rust\",\"version\":0,\"text\":\"\"}",
            "buffer/saved {\"path\":\"/p/a.rs\",\"version\":0}",
            "buffer/closed {\"path\":\"/p/a.rs\"}"
        ]
    );
    assert_eq!(sent(&hosts, 1).len(), 2);
    hosts.selection_changed(&doc, "Rust", &nothing());
    assert_eq!(sent(&hosts, 0).len(), 5);
}

#[test]
fn a_host_that_died_is_forgotten_and_counted() {
    let mut hosts = one(&[]);
    hosts.died(HostId(0), "gone".to_string(), 3);
    assert!(!hosts.all()[0].is_ready());
    assert_eq!(hosts.crashes[0].count, 1);
    assert!(hosts.wake("cargo", "/p", 3));
    hosts.not_started("cargo", "/p", not_installed("cargo", "cargo-host"), 4);
    assert_eq!(hosts.crashes[0].count, 2);
    assert_eq!(
        hosts.problems,
        ["cargo: cargo-host is not installed — the plugin is off until it is"]
    );
    assert_eq!(not_starting("cargo", "no"), "cargo: no");
}

#[test]
fn a_request_for_something_unknown_is_refused_and_not_left_waiting() {
    let mut hosts = one(&[]);
    hosts.hosts[0].refuse(string("q"), "no such thing");
    hosts.hosts[0].answer(Json::Natural(4), Json::Null);
    assert_eq!(sent(&hosts, 0)[1..], ["refuse -32601 no such thing", "answer 4 null"]);
    hosts.shutdown_all();
    assert_eq!(sent(&hosts, 0)[3], "stop");
    assert_eq!(as_str(Some(&string("q"))), Some("q"));
}

#[test]
fn a_plugin_wakes_for_its_language_or_its_files() {
    let whens = vec![
        Activate::Command,
        Activate::File("*.ioc".into()),
        Activate::Language("c".into()),
    ];
    assert!(wanted(&whens, "c", &vec![false, false, false]));
    assert!(wanted(&whens, "rust", &vec![false, true, false]));
    assert!(!wanted(&whens, "rust", &vec![true, false, true]));
}

#[test]
fn a_program_is_run_where_the_plugin_said_or_in_its_project() {
    let hosts = one(&[]);
    assert_eq!(hosts.place_to_run(HostId(0), Some("/x".into())), "/x");
    assert_eq!(hosts.place_to_run(HostId(0), None), "/p");
    assert_eq!(hosts.place_to_run(HostId(9), None), ".");
}

#[test]
fn switching_a_plugin_off_stops_its_hosts_alone() {
    let mut hosts = one(&[]);
    hosts.started("other", "/p", &Vec::new(), &None, 7, "1.0");
    let gone = hosts.stop_plugin("cargo");
    assert_eq!(gone.len(), 1);
    assert!(matches!(gone[0].peer.sending.last(), Some(Sending::Stop)));
    assert_eq!(hosts.all().len(), 1);
    assert_eq!(hosts.all()[0].plugin, "other");
}

#[test]
fn a_root_that_is_not_there_is_left_as_it_was() {
    let made_up = "/no/such/place/at/all".to_string();
    assert_eq!(textfold::host::settle(made_up.clone(), None), made_up);
    // And one that is there goes by the whole of where it is.
    let whole = Some("/home/me/work".to_string());
    assert_eq!(textfold::host::settle(".".to_string(), whole), "/home/me/work");
}

#[test]
fn what_a_program_did_goes_back_to_the_plugin_that_asked() {
    let done = textfold::host::Output {
        ok: false,
        code: Some(3),
        out: "out".to_string(),
        err: "err".to_string(),
    };
    let r = textfold::host::ran(textfold::host::HostId(1), Json::Natural(9), Ok(done));
    assert_eq!((r.ok, r.code, r.out.as_str(), r.err.as_str()), (false, Some(3), "out", "err"));
    let r = textfold::host::ran(
        textfold::host::HostId(1),
        Json::Natural(9),
        Err("it went away".to_string()),
    );
    assert_eq!((r.ok, r.code, r.out.as_str(), r.err.as_str()), (false, None, "", "it went away"));
    assert_eq!(textfold::host::would_not_run("jq", true, "no such file"), "jq is not installed");
    assert_eq!(textfold::host::would_not_run("jq", false, "denied"), "jq: denied");
}
