//! What the editor tells a language server it can do. Claiming a capability
//! that nobody handles is worse than not claiming it.
use vstd::prelude::*;

use crate::json::{add_field, add_item, each, list, object, string, Json, Value};

verus! {

/// An object with one field.
pub open spec fn only(key: Seq<char>, v: Value) -> Value {
    Value::Object(seq![(key, v)])
}

/// A list of texts.
pub open spec fn words(ws: Seq<Seq<char>>) -> Value {
    Value::List(ws.map_values(|w: Seq<char>| Value::Text(w)))
}

/// What words say.
pub open spec fn said(ws: Seq<&'static str>) -> Seq<Seq<char>> {
    ws.map_values(|w: &'static str| w@)
}

/// An object with one field.
pub fn say_only(key: &str, v: Json) -> (j: Json)
    ensures
        j@ == only(key@, v@),
{
    let ghost is = v@;
    let mut fs: Vec<(String, Json)> = Vec::new();
    add_field(&mut fs, key, v);
    let j = object(fs);
    assert(j@->Object_0 =~= seq![(key@, is)]);
    j
}

/// A list of texts.
pub fn say_words(ws: &Vec<&'static str>) -> (j: Json)
    ensures
        j@ == words(said(ws@)),
{
    let ghost want = said(ws@).map_values(|w: Seq<char>| Value::Text(w));
    let mut items: Vec<Json> = Vec::new();
    let mut i: usize = 0;
    assert(each(items@) =~= want.take(0));
    while i < ws.len()
        invariant
            i <= ws@.len(),
            want == said(ws@).map_values(|w: Seq<char>| Value::Text(w)),
            each(items@) == want.take(i as int),
        decreases ws@.len() - i,
    {
        add_item(&mut items, string(ws[i]));
        i = i + 1;
        assert(each(items@) =~= want.take(i as int));
    }
    assert(want.take(i as int) =~= want);
    list(items)
}

/// An object without fields.
pub fn nothing() -> (j: Json)
    ensures
        j@ == Value::Object(Seq::empty()),
{
    let fs: Vec<(String, Json)> = Vec::new();
    let j = object(fs);
    assert(j@->Object_0 =~= Seq::<(Seq<char>, Value)>::empty());
    j
}

/// What a server is told about one suggestion.
pub open spec fn item_part() -> Value {
    Value::Object(
        seq![
            ("snippetSupport"@, Value::Bool(false)),
            ("documentationFormat"@, words(seq!["markdown"@, "plaintext"@])),
            ("insertReplaceSupport"@, Value::Bool(true)),
            (
                "resolveSupport"@,
                only("properties"@, words(seq!["documentation"@, "detail"@, "additionalTextEdits"@])),
            ),
            ("labelDetailsSupport"@, Value::Bool(true)),
        ],
    )
}

fn say_item_part() -> (j: Json)
    ensures
        j@ == item_part(),
{
    let mut fs: Vec<(String, Json)> = Vec::new();
    add_field(&mut fs, "snippetSupport", Json::Bool(false));
    let documentation_format: Vec<&'static str> = vec!["markdown", "plaintext"];
    assert(said(documentation_format@) =~= seq!["markdown"@, "plaintext"@]);
    add_field(&mut fs, "documentationFormat", say_words(&documentation_format));
    add_field(&mut fs, "insertReplaceSupport", Json::Bool(true));
    let properties: Vec<&'static str> = vec!["documentation", "detail", "additionalTextEdits"];
    assert(said(properties@) =~= seq!["documentation"@, "detail"@, "additionalTextEdits"@]);
    add_field(&mut fs, "resolveSupport", say_only("properties", say_words(&properties)));
    add_field(&mut fs, "labelDetailsSupport", Json::Bool(true));
    let j = object(fs);
    assert(j@->Object_0 =~= item_part()->Object_0);
    j
}

/// What a server is told about one signature.
pub open spec fn signature_part() -> Value {
    Value::Object(
        seq![
            ("documentationFormat"@, words(seq!["markdown"@, "plaintext"@])),
            ("parameterInformation"@, only("labelOffsetSupport"@, Value::Bool(true))),
        ],
    )
}

fn say_signature_part() -> (j: Json)
    ensures
        j@ == signature_part(),
{
    let mut fs: Vec<(String, Json)> = Vec::new();
    let documentation_format: Vec<&'static str> = vec!["markdown", "plaintext"];
    assert(said(documentation_format@) =~= seq!["markdown"@, "plaintext"@]);
    add_field(&mut fs, "documentationFormat", say_words(&documentation_format));
    add_field(&mut fs, "parameterInformation", say_only("labelOffsetSupport", Json::Bool(true)));
    let j = object(fs);
    assert(j@->Object_0 =~= signature_part()->Object_0);
    j
}

/// What a server is told about being told of edits.
pub open spec fn sync_part() -> Value {
    Value::Object(
        seq![
            ("dynamicRegistration"@, Value::Bool(false)),
            ("willSave"@, Value::Bool(false)),
            ("didSave"@, Value::Bool(true)),
        ],
    )
}

fn say_sync_part() -> (j: Json)
    ensures
        j@ == sync_part(),
{
    let mut fs: Vec<(String, Json)> = Vec::new();
    add_field(&mut fs, "dynamicRegistration", Json::Bool(false));
    add_field(&mut fs, "willSave", Json::Bool(false));
    add_field(&mut fs, "didSave", Json::Bool(true));
    let j = object(fs);
    assert(j@->Object_0 =~= sync_part()->Object_0);
    j
}

/// What a server is told about suggestions.
pub open spec fn completion_part() -> Value {
    Value::Object(
        seq![
            ("dynamicRegistration"@, Value::Bool(false)),
            ("completionItem"@, item_part()),
            ("contextSupport"@, Value::Bool(true)),
        ],
    )
}

fn say_completion_part() -> (j: Json)
    ensures
        j@ == completion_part(),
{
    let mut fs: Vec<(String, Json)> = Vec::new();
    add_field(&mut fs, "dynamicRegistration", Json::Bool(false));
    add_field(&mut fs, "completionItem", say_item_part());
    add_field(&mut fs, "contextSupport", Json::Bool(true));
    let j = object(fs);
    assert(j@->Object_0 =~= completion_part()->Object_0);
    j
}

/// What a server is told about fixes.
pub open spec fn action_part() -> Value {
    Value::Object(
        seq![
            (
                "codeActionLiteralSupport"@,
                only(
                    "codeActionKind"@,
                    only(
                        "valueSet"@,
                        words(
                            seq![
                                ""@,
                                "quickfix"@,
                                "refactor"@,
                                "refactor.extract"@,
                                "refactor.inline"@,
                                "refactor.rewrite"@,
                                "source"@,
                                "source.organizeImports"@,
                            ],
                        ),
                    ),
                ),
            ),
            ("resolveSupport"@, only("properties"@, words(seq!["edit"@]))),
        ],
    )
}

fn say_action_part() -> (j: Json)
    ensures
        j@ == action_part(),
{
    let mut fs: Vec<(String, Json)> = Vec::new();
    let value_set: Vec<&'static str> = vec![
        "",
        "quickfix",
        "refactor",
        "refactor.extract",
        "refactor.inline",
        "refactor.rewrite",
        "source",
        "source.organizeImports",
    ];
    assert(said(value_set@) =~= seq![
        ""@,
        "quickfix"@,
        "refactor"@,
        "refactor.extract"@,
        "refactor.inline"@,
        "refactor.rewrite"@,
        "source"@,
        "source.organizeImports"@,
    ]);
    add_field(&mut fs, "codeActionLiteralSupport", say_only("codeActionKind", say_only("valueSet", say_words(&value_set))));
    let properties: Vec<&'static str> = vec!["edit"];
    assert(said(properties@) =~= seq!["edit"@]);
    add_field(&mut fs, "resolveSupport", say_only("properties", say_words(&properties)));
    let j = object(fs);
    assert(j@->Object_0 =~= action_part()->Object_0);
    j
}

/// What a server is told about what can be done with a project.
pub open spec fn workspace_part() -> Value {
    Value::Object(
        seq![
            ("applyEdit"@, Value::Bool(true)),
            ("configuration"@, Value::Bool(true)),
            ("workspaceFolders"@, Value::Bool(true)),
            ("didChangeConfiguration"@, only("dynamicRegistration"@, Value::Bool(false))),
            ("symbol"@, only("dynamicRegistration"@, Value::Bool(false))),
            ("executeCommand"@, only("dynamicRegistration"@, Value::Bool(false))),
        ],
    )
}

fn say_workspace_part() -> (j: Json)
    ensures
        j@ == workspace_part(),
{
    let mut fs: Vec<(String, Json)> = Vec::new();
    add_field(&mut fs, "applyEdit", Json::Bool(true));
    add_field(&mut fs, "configuration", Json::Bool(true));
    add_field(&mut fs, "workspaceFolders", Json::Bool(true));
    add_field(&mut fs, "didChangeConfiguration", say_only("dynamicRegistration", Json::Bool(false)));
    add_field(&mut fs, "symbol", say_only("dynamicRegistration", Json::Bool(false)));
    add_field(&mut fs, "executeCommand", say_only("dynamicRegistration", Json::Bool(false)));
    let j = object(fs);
    assert(j@->Object_0 =~= workspace_part()->Object_0);
    j
}

/// What a server is told about what can be done with a file.
pub open spec fn text_part() -> Value {
    Value::Object(
        seq![
            ("synchronization"@, sync_part()),
            ("completion"@, completion_part()),
            ("hover"@, only("contentFormat"@, words(seq!["markdown"@, "plaintext"@]))),
            ("signatureHelp"@, only("signatureInformation"@, signature_part())),
            ("definition"@, only("linkSupport"@, Value::Bool(true))),
            ("typeDefinition"@, only("linkSupport"@, Value::Bool(true))),
            ("implementation"@, only("linkSupport"@, Value::Bool(true))),
            ("references"@, Value::Object(Seq::empty())),
            ("documentSymbol"@, only("hierarchicalDocumentSymbolSupport"@, Value::Bool(true))),
            ("formatting"@, Value::Object(Seq::empty())),
            ("rename"@, only("prepareSupport"@, Value::Bool(false))),
            ("publishDiagnostics"@, only("relatedInformation"@, Value::Bool(true))),
            ("codeAction"@, action_part()),
        ],
    )
}

fn say_text_part() -> (j: Json)
    ensures
        j@ == text_part(),
{
    let mut fs: Vec<(String, Json)> = Vec::new();
    add_field(&mut fs, "synchronization", say_sync_part());
    add_field(&mut fs, "completion", say_completion_part());
    let content_format: Vec<&'static str> = vec!["markdown", "plaintext"];
    assert(said(content_format@) =~= seq!["markdown"@, "plaintext"@]);
    add_field(&mut fs, "hover", say_only("contentFormat", say_words(&content_format)));
    add_field(&mut fs, "signatureHelp", say_only("signatureInformation", say_signature_part()));
    add_field(&mut fs, "definition", say_only("linkSupport", Json::Bool(true)));
    add_field(&mut fs, "typeDefinition", say_only("linkSupport", Json::Bool(true)));
    add_field(&mut fs, "implementation", say_only("linkSupport", Json::Bool(true)));
    add_field(&mut fs, "references", nothing());
    add_field(&mut fs, "documentSymbol", say_only("hierarchicalDocumentSymbolSupport", Json::Bool(true)));
    add_field(&mut fs, "formatting", nothing());
    add_field(&mut fs, "rename", say_only("prepareSupport", Json::Bool(false)));
    add_field(&mut fs, "publishDiagnostics", say_only("relatedInformation", Json::Bool(true)));
    add_field(&mut fs, "codeAction", say_action_part());
    let j = object(fs);
    assert(j@->Object_0 =~= text_part()->Object_0);
    j
}

/// What a server is told about what can be shown.
pub open spec fn window_part() -> Value {
    Value::Object(
        seq![
            ("workDoneProgress"@, Value::Bool(true)),
            ("showMessage"@, Value::Object(Seq::empty())),
        ],
    )
}

fn say_window_part() -> (j: Json)
    ensures
        j@ == window_part(),
{
    let mut fs: Vec<(String, Json)> = Vec::new();
    add_field(&mut fs, "workDoneProgress", Json::Bool(true));
    add_field(&mut fs, "showMessage", nothing());
    let j = object(fs);
    assert(j@->Object_0 =~= window_part()->Object_0);
    j
}

/// What a server is told about all there is.
pub open spec fn client_part() -> Value {
    Value::Object(
        seq![
            ("workspace"@, workspace_part()),
            ("textDocument"@, text_part()),
            ("window"@, window_part()),
            ("general"@, only("positionEncodings"@, words(seq!["utf-16"@]))),
        ],
    )
}

/// What a server is told the editor can do.
pub fn capabilities() -> (j: Json)
    ensures
        j@ == client_part(),
{
    let mut fs: Vec<(String, Json)> = Vec::new();
    add_field(&mut fs, "workspace", say_workspace_part());
    add_field(&mut fs, "textDocument", say_text_part());
    add_field(&mut fs, "window", say_window_part());
    let position_encodings: Vec<&'static str> = vec!["utf-16"];
    assert(said(position_encodings@) =~= seq!["utf-16"@]);
    add_field(&mut fs, "general", say_only("positionEncodings", say_words(&position_encodings)));
    let j = object(fs);
    assert(j@->Object_0 =~= client_part()->Object_0);
    j
}

} // verus!
