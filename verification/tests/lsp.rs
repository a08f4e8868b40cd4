//! Language servers.
use textfold::doc::{DocId, Document};
use textfold::indent::Indent;
use textfold::json::{show, Json};
use textfold::lsp::{dig, sync_of, triggers_of, Config, Server, Sync};
use textfold::rpc::Sending;
use textfold::servers::{Opening, Servers};
use textfold::telling::{fill, wants_filling};
use textfold::uri::{path_of, uri_of};
use textfold::vars::Environment;

fn convert(v: &serde_json::Value) -> Json {
    match v {
        serde_json::Value::Null => Json::Null,
        serde_json::Value::Bool(b) => Json::Bool(*b),
        serde_json::Value::Number(n) => match (n.as_u64(), n.as_i64()) {
            (Some(u), _) => Json::Natural(u),
            (None, Some(i)) => Json::Negative(i),
            _ => Json::Fraction(n.to_string()),
        },
        serde_json::Value::String(s) => Json::Text(s.clone()),
        serde_json::Value::Array(items) => Json::List(items.iter().map(convert).collect()),
        serde_json::Value::Object(fields) => {
            Json::Object(fields.iter().map(|(k, v)| (k.clone(), convert(v))).collect())
        }
    }
}

fn json(text: &str) -> Json {
    let read: serde_json::Value = serde_json::from_str(text).expect("a value");
    convert(&read)
}

#[test]
fn a_server_is_told_about_an_edit_the_way_it_asked_to_be() {
    assert_eq!(sync_of(&json(r#"{ "textDocumentSync": 1 }"#)), Sync::Full);
    assert_eq!(sync_of(&json(r#"{ "textDocumentSync": 2 }"#)), Sync::Incremental);
    assert_eq!(sync_of(&json(r#"{ "textDocumentSync": 0 }"#)), Sync::Off);

    // The other shape it comes in.
    assert_eq!(
        sync_of(&json(r#"{ "textDocumentSync": { "openClose": true, "change": 2 } }"#)),
        Sync::Incremental
    );
    assert_eq!(
        sync_of(&json(r#"{ "textDocumentSync": { "openClose": true, "change": 1 } }"#)),
        Sync::Full
    );

    // Said nothing, or said something nobody understands. Of the two ways to
    // be wrong, the whole document is merely wasteful.
    assert_eq!(sync_of(&json("{}")), Sync::Full);
    assert_eq!(
        sync_of(&json(r#"{ "textDocumentSync": { "openClose": true } }"#)),
        Sync::Full
    );
}

#[test]
fn the_server_that_taplo_is_asks_for_the_whole_document() {
    let taplo = json(
        r#"{
            "textDocumentSync": 1,
            "completionProvider": {
                "resolveProvider": false,
                "triggerCharacters": [".", "=", "[", "{", ",", "\""]
            },
            "hoverProvider": true,
            "documentFormattingProvider": true
        }"#,
    );
    assert_eq!(sync_of(&taplo), Sync::Full);
    // And the characters that make its completions appear as you type.
    let triggers = triggers_of(&taplo, "completionProvider");
    for c in ['.', '=', '[', '{', ',', '"'] {
        assert!(triggers.contains(&c), "{c} should open the list");
    }
}

fn pyright() -> Config {
    Config {
        id: "python/pyright".to_string(),
        name: "pyright".to_string(),
        command: "pyright-langserver".to_string(),
        args: vec!["--stdio".to_string()],
        roots: vec!["pyproject.toml".to_string()],
        init_options: None,
        settings: Some(json(
            r#"{ "python": { "pythonPath": "${python}", "analysis": { "autoSearchPaths": true } } }"#,
        )),
        env: vec![("PATH".to_string(), "${venv_bin}:/usr/bin".to_string())],
    }
}

#[test]
fn a_python_server_is_pointed_at_the_environment_beside_the_project() {
    let env = Some(Environment {
        root: "/w/project/.venv".to_string(),
        python: "/w/project/.venv/bin/python3".to_string(),
        about: ".venv".to_string(),
    });
    let filled = fill(&pyright(), "/w/project", &env);
    let said = dig(filled.settings.as_ref().expect("settings"), "python.pythonPath");
    assert_eq!(show(&said), "\"/w/project/.venv/bin/python3\"");
    assert_eq!(filled.env, vec![("PATH".to_string(), "/w/project/.venv/bin:/usr/bin".to_string())]);
}

#[test]
fn a_python_project_with_no_environment_is_told_nothing_about_one() {
    let filled = fill(&pyright(), "/w/project", &None);
    let settings = filled.settings.expect("settings");
    assert!(matches!(dig(&settings, "python.pythonPath"), Json::Null), "a pythonPath was invented");
    assert!(
        !filled.env.iter().any(|(k, _)| k == "PATH"),
        "PATH was rewritten around an environment that is not there: {:?}",
        filled.env
    );
    // What did not depend on an environment is still there.
    assert!(matches!(dig(&settings, "python.analysis.autoSearchPaths"), Json::Bool(true)));
}

#[test]
fn a_server_with_no_placeholders_is_left_exactly_as_it_was() {
    let config = Config {
        id: "rust/rust-analyzer".to_string(),
        name: "rust-analyzer".to_string(),
        command: "rust-analyzer".to_string(),
        args: vec![],
        roots: vec!["Cargo.toml".to_string()],
        init_options: None,
        settings: None,
        env: vec![],
    };
    assert!(!wants_filling(&config));
    assert!(wants_filling(&pyright()));
}

#[test]
fn a_path_survives_the_round_trip_through_a_uri() {
    for path in [
        "/home/someone/project/src/main.rs",
        "/tmp/a file with spaces.rs",
        "/tmp/ünïcödé/x.rs",
        "/tmp/100% sure.txt",
    ] {
        let uri = uri_of(path);
        assert!(uri.starts_with("file:///"), "{uri}");
        assert_eq!(path_of(&uri).as_deref(), Some(path), "{uri}");
    }
}

#[test]
fn a_uri_that_is_not_a_file_is_not_a_path() {
    assert_eq!(path_of("untitled:Untitled-1"), None);
    assert_eq!(path_of("jdt://contents/rt.jar"), None);
}

#[test]
fn settings_are_handed_back_by_the_section_asked_for() {
    let settings = json(r#"{ "rust-analyzer": { "check": { "command": "clippy" } } }"#);
    assert_eq!(show(&dig(&settings, "rust-analyzer.check.command")), "\"clippy\"");
    assert!(matches!(dig(&settings, "rust-analyzer.nothing"), Json::Null));
    assert!(matches!(dig(&settings, "elsewhere"), Json::Null));
}

fn document(path: &str, text: &str) -> Document {
    let mut d = Document::scratch(DocId(3), path.to_string(), Indent::Spaces(4));
    d.path = Some(path.to_string());
    d.set_text(text, false, false, 0);
    d
}

fn said(server: &Server) -> Vec<String> {
    server
        .peer
        .sending
        .iter()
        .map(|s| match s {
            Sending::Request { method, .. } => method.clone(),
            Sending::Notify { method, .. } => method.clone(),
            Sending::Answer { .. } => "an answer".to_string(),
            Sending::Refuse { .. } => "a refusal".to_string(),
            Sending::Disconnect { .. } => "goodbye".to_string(),
            Sending::Stop => "stop".to_string(),
        })
        .collect()
}

#[test]
fn a_server_hears_of_a_file_once_it_is_ready() {
    let mut servers = Servers::new();
    let doc = document("/w/a.toml", "x = 1\n");
    assert_eq!(servers.open(&doc, "taplo", "/w", "toml"), Opening::Start);
    let config = Config {
        id: "toml/taplo".to_string(),
        name: "taplo".to_string(),
        command: "taplo".to_string(),
        args: vec![],
        roots: vec![],
        init_options: None,
        settings: None,
        env: vec![],
    };
    let id = servers.started(&config, "/w", 77, "1.0", doc.id);
    assert_eq!(said(servers.get(id).expect("started")), vec!["initialize"]);
    let result = json(r#"{ "capabilities": { "textDocumentSync": 1, "hoverProvider": true } }"#);
    servers.ready(id, &result, &vec![(&doc, "toml".to_string())]);
    let server = servers.get(id).expect("started");
    assert!(server.is_ready());
    assert_eq!(said(server)[1..], ["initialized".to_string(), "textDocument/didOpen".to_string()]);

    // It answers what it can and is not asked what it cannot.
    assert_eq!(servers.hover(&doc, 0), Some(id));
    assert_eq!(servers.format(&doc, 4, true), None);
    servers.did_save(&doc);
    servers.did_close("/w/a.toml");
    let told = said(servers.get(id).expect("started"));
    assert_eq!(told.last().map(String::as_str), Some("textDocument/didClose"));

    // A closed file is not heard of again.
    let before = told.len();
    servers.did_close("/w/a.toml");
    assert_eq!(said(servers.get(id).expect("started")).len(), before);

    servers.died(id, "it fell over".to_string());
    assert!(!servers.get(id).expect("still listed").is_ready());
    assert_eq!(servers.hover(&doc, 0), None);
}

#[test]
fn a_server_that_would_not_start_is_not_tried_twice() {
    let mut servers = Servers::new();
    let doc = document("/w/a.toml", "x = 1\n");
    assert_eq!(servers.open(&doc, "taplo", "/w", "toml"), Opening::Start);
    servers.not_started("taplo", "/w", "taplo is not installed".to_string());
    assert_eq!(servers.open(&doc, "taplo", "/w", "toml"), Opening::Done);
    assert!(servers.problems.iter().any(|p| p.contains("taplo is not installed")));
}

fn ready(capabilities: &str) -> (Servers, textfold::lsp::ServerId, Document) {
    let mut servers = Servers::new();
    let doc = document("/w/a.toml", "x = 1\ny = 2\n");
    assert_eq!(servers.open(&doc, "taplo", "/w", "toml"), Opening::Start);
    let config = Config {
        id: "toml/taplo".to_string(),
        name: "taplo".to_string(),
        command: "taplo".to_string(),
        args: vec![],
        roots: vec![],
        init_options: None,
        settings: Some(json(r#"{ "taplo": { "indent": 2 } }"#)),
        env: vec![],
    };
    let id = servers.started(&config, "/w", 77, "1.0", doc.id);
    let result = json(&format!("{{ \"capabilities\": {capabilities} }}"));
    servers.ready(id, &result, &vec![(&doc, "toml".to_string())]);
    (servers, id, doc)
}

fn last(servers: &Servers, id: textfold::lsp::ServerId) -> (String, String) {
    match servers.get(id).expect("there").peer.sending.last().expect("something") {
        Sending::Request { method, params, .. } => (method.clone(), show(params)),
        Sending::Notify { method, params } => (method.clone(), show(params)),
        Sending::Answer { result, .. } => ("an answer".to_string(), show(result)),
        other => panic!("{other:?}"),
    }
}

fn sel() -> textfold::text::Selections {
    textfold::text::Selections::single(textfold::text::Range::point(0))
}

#[test]
fn an_edit_is_told_as_a_range_to_a_server_that_wants_ranges() {
    let (mut servers, id, mut doc) = ready(r#"{ "textDocumentSync": 2 }"#);
    let change = textfold::change::Change::replace(4, 5, "10".to_string());
    let edits = doc.apply(vec![change], &sel(), 0);
    servers.did_change(&doc, &edits);
    let (method, params) = last(&servers, id);
    assert_eq!(method, "textDocument/didChange");
    let read: serde_json::Value = serde_json::from_str(&params).expect("json");
    let change = &read["contentChanges"][0];
    assert_eq!(change["text"], "10");
    assert_eq!(change["range"]["start"]["line"], 0);
    assert_eq!(change["range"]["start"]["character"], 4);
    assert_eq!(change["range"]["end"]["character"], 5);
}

#[test]
fn an_edit_is_told_as_the_whole_text_to_a_server_that_wants_that() {
    let (mut servers, id, mut doc) = ready(r#"{ "textDocumentSync": 1 }"#);
    let change = textfold::change::Change::replace(4, 5, "10".to_string());
    let edits = doc.apply(vec![change], &sel(), 0);
    servers.did_change(&doc, &edits);
    let (_, params) = last(&servers, id);
    let read: serde_json::Value = serde_json::from_str(&params).expect("json");
    assert_eq!(read["contentChanges"][0]["text"], "x = 10\ny = 2\n");
    assert!(read["contentChanges"][0]["range"].is_null());
}

#[test]
fn what_a_server_asks_for_is_answered() {
    let (mut servers, id, _) = ready(r#"{ "textDocumentSync": 1 }"#);
    servers.respond(
        id,
        Json::Natural(4),
        "workspace/configuration",
        &json(r#"{ "items": [{ "section": "taplo.indent" }, { "section": "nothing" }] }"#),
    );
    assert_eq!(last(&servers, id), ("an answer".to_string(), "[2,null]".to_string()));
    servers.respond(id, Json::Natural(5), "client/registerCapability", &json("{}"));
    assert_eq!(last(&servers, id), ("an answer".to_string(), "null".to_string()));
}

#[test]
fn what_a_server_finds_wrong_is_shown_where_it_is() {
    let (servers, id, doc) = ready(r#"{ "textDocumentSync": 1 }"#);
    let params = json(
        r#"{ "uri": "file:///w/a.toml", "diagnostics": [
            { "range": { "start": { "line": 1, "character": 4 },
                         "end": { "line": 1, "character": 5 } },
              "severity": 2, "message": "odd", "source": "taplo", "code": 12 }
        ]}"#,
    );
    let found = servers.diagnostics_for(id, &params, &doc).expect("about this file");
    assert_eq!(found.len(), 1);
    assert_eq!((found[0].range.start(), found[0].range.end()), (10, 11));
    assert_eq!(found[0].severity, textfold::doc::Severity::Warning);
    assert_eq!(found[0].message, "odd");
    let elsewhere = document("/w/b.toml", "x\n");
    assert!(servers.diagnostics_for(id, &params, &elsewhere).is_none());
}

#[test]
fn questions_go_to_a_server_that_can_answer_them() {
    let (mut servers, id, doc) = ready(
        r#"{ "textDocumentSync": 1, "completionProvider": { "triggerCharacters": ["."] },
             "signatureHelpProvider": { "triggerCharacters": ["("] },
             "definitionProvider": true, "referencesProvider": true, "renameProvider": true,
             "workspaceSymbolProvider": true, "documentSymbolProvider": true,
             "codeActionProvider": true }"#,
    );
    let server = servers.get(id).expect("there");
    assert_eq!(server.completion_triggers(), vec!['.']);
    assert_eq!(server.signature_triggers(), vec!['(']);
    assert!(server.busy_with().is_none());
    assert_eq!(servers.completion(&doc, 4, Some('.')), Some(id));
    assert_eq!(last(&servers, id).0, "textDocument/completion");
    assert_eq!(servers.goto(&doc, 4, textfold::lsp::Goto::Definition), Some(id));
    assert_eq!(last(&servers, id).0, "textDocument/definition");
    assert_eq!(servers.goto(&doc, 4, textfold::lsp::Goto::Type), None);
    assert_eq!(servers.references(&doc, 4), Some(id));
    assert_eq!(servers.signature(&doc, 4), Some(id));
    assert_eq!(servers.rename(&doc, 0, "z"), Some(id));
    assert!(last(&servers, id).1.contains("\"newName\":\"z\""));
    assert_eq!(servers.symbols(&doc), Some(id));
    assert_eq!(servers.workspace_symbols(&doc, "x", None), Some(id));
    let range = textfold::text::Range::new(0, 1);
    assert_eq!(servers.code_actions(&doc, range), vec![id]);
    assert_eq!(servers.quick_fixes(&doc, range), vec![id]);
    assert!(servers.source_action(&doc, "source.fixAll", id));
    assert!(last(&servers, id).1.contains("source.fixAll"));
    assert!(!servers.resolve_action(id, &json("{}")), "it did not say it could");
    servers.execute(id, &json(r#"{ "command": "taplo.do", "arguments": [1] }"#));
    assert_eq!(last(&servers, id).0, "workspace/executeCommand");
    assert_eq!(servers.class_file(&doc, "jdt://x", 1, 2).is_some(), true);
    assert_eq!(servers.picked("/w"), None);
}

#[test]
fn progress_is_shown_until_it_ends() {
    let (mut servers, id, _) = ready(r#"{ "textDocumentSync": 1 }"#);
    servers.progress(
        id,
        &json(r#"{ "token": "t", "value": { "kind": "begin", "title": "Indexing" } }"#),
    );
    assert!(servers.get(id).expect("there").busy_with().is_some_and(|s| s.contains("Indexing")));
    servers.progress(id, &json(r#"{ "token": "t", "value": { "kind": "end" } }"#));
    assert!(servers.get(id).expect("there").busy_with().is_none());
}

#[test]
fn forty_files_of_a_project_start_one_server() {
    let (mut servers, id, _) = ready(r#"{ "textDocumentSync": 1 }"#);
    for n in 0..40 {
        let doc = document(&format!("/w/{n}.toml"), "x\n");
        assert_eq!(servers.open(&doc, "taplo", "/w/", "toml"), Opening::Done);
    }
    assert_eq!(servers.all().len(), 1);
    // Another project is another process.
    let elsewhere = document("/v/a.toml", "x\n");
    assert_eq!(servers.open(&elsewhere, "taplo", "/v", "toml"), Opening::Start);
    // And one that has died is not started again on every keystroke.
    servers.died(id, "stopped".to_string());
    let again = document("/w/again.toml", "x\n");
    assert_eq!(servers.open(&again, "taplo", "/w", "toml"), Opening::Done);
}
