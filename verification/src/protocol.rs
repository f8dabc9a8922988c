//! The tool protocol: what a line of JSON-RPC asks for, and what it is answered.
//!
//! Every line is turned into an action. An answer that needs nothing but the line is in the action
//! already; a tool call comes with its arguments, and the answer is put together from what the
//! tool yields.
use crate::json::{
    as_natural, as_string, boolean, boolean_text, copy, decimal, field, integer, integer_text,
    json_field, json_natural, json_parsed, json_quoted, json_string, json_text, lemma_precedes,
    list, list_text, natural, null, null_text, object, object1, object2, object3, object_text,
    parse, print, string, value_texts,
};
use serde_json::Value;
use vstd::prelude::*;
use vstd::string::StringExecFns;

verus! {

/// What is answered to a method that there is not.
pub const METHOD_NOT_FOUND: i64 = -32601;

/// How many memories a recall yields where the call does not say.
pub const DEFAULT_RECALL: usize = 5;

/// What a tool call asks for.
pub enum Tool {
    /// To store `text` under `uri`.
    Ingest { uri: String, text: String },
    /// To find the `k` memories nearest to `text`.
    Recall { text: String, k: usize },
    /// To explain how the `k` memories nearest to `text` are found.
    Explain { text: String, k: usize },
    /// To count what is stored.
    Stats,
    /// Nothing that can be done, for this reason.
    Refused { reason: String },
}

/// What to do about a line.
pub enum Action {
    /// Nothing; there is no answer.
    Nothing,
    /// To answer this.
    Reply { text: String },
    /// To call a tool and answer what it yields, under this id.
    Call { id: Option<Value>, tool: Tool },
}

/// What a `Tool` holds.
pub enum ToolModel {
    Ingest { uri: Seq<char>, text: Seq<char> },
    Recall { text: Seq<char>, k: usize },
    Explain { text: Seq<char>, k: usize },
    Stats,
    Refused { reason: Seq<char> },
}

/// What an `Action` holds.
pub enum ActionModel {
    Nothing,
    Reply { text: Seq<char> },
    Call { id: Option<Seq<char>>, tool: ToolModel },
}

impl View for Tool {
    type V = ToolModel;

    open spec fn view(&self) -> ToolModel {
        match self {
            Tool::Ingest { uri, text } => ToolModel::Ingest { uri: uri@, text: text@ },
            Tool::Recall { text, k } => ToolModel::Recall { text: text@, k: *k },
            Tool::Explain { text, k } => ToolModel::Explain { text: text@, k: *k },
            Tool::Stats => ToolModel::Stats,
            Tool::Refused { reason } => ToolModel::Refused { reason: reason@ },
        }
    }
}

/// The text of an optional value.
pub open spec fn text_if_any(v: Option<Value>) -> Option<Seq<char>> {
    match v {
        Some(v) => Some(json_text(v)),
        None => None,
    }
}

impl View for Action {
    type V = ActionModel;

    open spec fn view(&self) -> ActionModel {
        match self {
            Action::Nothing => ActionModel::Nothing,
            Action::Reply { text } => ActionModel::Reply { text: text@ },
            Action::Call { id, tool } => ActionModel::Call { id: text_if_any(*id), tool: tool@ },
        }
    }
}

/// The text of an id; null where there is none.
pub open spec fn id_text(id: Option<Seq<char>>) -> Seq<char> {
    match id {
        Some(text) => text,
        None => null_text(),
    }
}

/// The answer with the given result.
pub open spec fn reply_text(id: Option<Seq<char>>, result: Seq<char>) -> Seq<char> {
    object_text(
        seq![("id"@, id_text(id)), ("jsonrpc"@, json_quoted("2.0"@)), ("result"@, result)],
    )
}

/// The answer with the given error.
pub open spec fn error_text(id: Option<Seq<char>>, code: int, message: Seq<char>) -> Seq<char> {
    object_text(
        seq![
            (
                "error"@,
                object_text(
                    seq![("code"@, integer_text(code)), ("message"@, json_quoted(message))],
                ),
            ),
            ("id"@, id_text(id)),
            ("jsonrpc"@, json_quoted("2.0"@)),
        ],
    )
}

/// The answer to a tool call that yields `text`.
pub open spec fn tool_reply_text(id: Option<Seq<char>>, text: Seq<char>, is_error: bool) -> Seq<
    char,
> {
    reply_text(
        id,
        object_text(
            seq![
                (
                    "content"@,
                    list_text(
                        seq![
                            object_text(
                                seq![
                                    ("text"@, json_quoted(text)),
                                    ("type"@, json_quoted("text"@)),
                                ],
                            ),
                        ],
                    ),
                ),
                ("isError"@, boolean_text(is_error)),
            ],
        ),
    )
}

fn id_or_null(id: Option<Value>) -> (r: Value)
    ensures
        json_text(r) == id_text(text_if_any(id)),
{
    match id {
        Some(v) => v,
        None => null(),
    }
}

/// The answer with the given result.
pub fn reply(id: Option<Value>, value: Value) -> (r: String)
    ensures
        r@ == reply_text(text_if_any(id), json_text(value)),
{
    proof {
        reveal_strlit("id");
        reveal_strlit("jsonrpc");
        reveal_strlit("result");
        lemma_precedes("id"@, "jsonrpc"@);
        lemma_precedes("jsonrpc"@, "result"@);
    }
    let v = object3("id", id_or_null(id), "jsonrpc", string("2.0"), "result", value);
    print(&v)
}

/// The answer with the given error.
pub fn error(id: Option<Value>, code: i64, message: &str) -> (r: String)
    ensures
        r@ == error_text(text_if_any(id), code as int, message@),
{
    proof {
        reveal_strlit("id");
        reveal_strlit("jsonrpc");
        reveal_strlit("error");
        reveal_strlit("code");
        reveal_strlit("message");
        lemma_precedes("error"@, "id"@);
        lemma_precedes("id"@, "jsonrpc"@);
        lemma_precedes("code"@, "message"@);
    }
    let body = object2("code", integer(code), "message", string(message));
    let v = object3("error", body, "id", id_or_null(id), "jsonrpc", string("2.0"));
    print(&v)
}

proof fn lemma_text_before_type()
    ensures
        crate::json::precedes("text"@, "type"@),
{
    reveal_strlit("text");
    reveal_strlit("type");
    assert("text"@.take(1) =~= "type"@.take(1));
}

/// The answer to a tool call: the compact text of what the tool yields, or the reason why it
/// yields nothing.
pub fn tool_reply(id: Option<Value>, outcome: Result<Value, String>) -> (r: String)
    ensures
        r@ == match outcome {
            Ok(v) => tool_reply_text(text_if_any(id), json_text(v), false),
            Err(reason) => tool_reply_text(text_if_any(id), reason@, true),
        },
{
    let (text, is_error) = match outcome {
        Ok(v) => (print(&v), false),
        Err(reason) => (reason, true),
    };
    proof {
        reveal_strlit("content");
        reveal_strlit("isError");
        lemma_precedes("content"@, "isError"@);
        lemma_text_before_type();
    }
    let part = object2("text", string(text.as_str()), "type", string("text"));
    let parts = vec![part];
    let ghost shown = seq![
        object_text(seq![("text"@, json_quoted(text@)), ("type"@, json_quoted("text"@))]),
    ];
    assert(value_texts(parts@) =~= shown);
    let content = list(parts);
    let result = object2("content", content, "isError", boolean(is_error));
    reply(id, result)
}

pub open spec fn type_text(name: Seq<char>) -> Seq<char> {
    object_text(seq![("type"@, json_quoted(name))])
}

/// The description of a tool's arguments: `text` must be among them.
pub open spec fn schema_text(properties: Seq<char>) -> Seq<char> {
    object_text(
        seq![
            ("properties"@, properties),
            ("required"@, list_text(seq![json_quoted("text"@)])),
            ("type"@, json_quoted("object"@)),
        ],
    )
}

pub open spec fn tool_text(name: Seq<char>, description: Seq<char>, schema: Seq<char>) -> Seq<
    char,
> {
    object_text(
        seq![
            ("description"@, json_quoted(description)),
            ("inputSchema"@, schema),
            ("name"@, json_quoted(name)),
        ],
    )
}

/// The arguments of a search: a text, and how many memories to find.
pub open spec fn search_schema_text() -> Seq<char> {
    schema_text(
        object_text(
            seq![
                (
                    "k"@,
                    object_text(
                        seq![("default"@, decimal(5)), ("type"@, json_quoted("integer"@))],
                    ),
                ),
                ("text"@, type_text("string"@)),
            ],
        ),
    )
}

/// The list of the tools.
pub open spec fn tool_list_text() -> Seq<char> {
    list_text(
        seq![
            tool_text(
                "ingest"@,
                "Embed `text` and store it as a semantic memory under `uri`."@,
                schema_text(
                    object_text(
                        seq![
                            ("text"@, type_text("string"@)),
                            ("uri"@, type_text("string"@)),
                        ],
                    ),
                ),
            ),
            tool_text(
                "recall"@,
                "Semantic recall: the memories nearest `text`. Returns {strategy, items:[{uri,score,kind,content}], tokens} (CCOS RecallWindow shape)."@,
                search_schema_text(),
            ),
            tool_text(
                "explain"@,
                "Explain a recall: the query's 3-D position, the coarse→fine zoom path, and nearest memories with distances."@,
                search_schema_text(),
            ),
            tool_text(
                "stats"@,
                "Memory statistics (count, octree nodes, arena bytes)."@,
                object_text(
                    seq![
                        ("properties"@, object_text(seq![])),
                        ("type"@, json_quoted("object"@)),
                    ],
                ),
            ),
        ],
    )
}

fn empty_object() -> (r: Value)
    ensures
        json_text(r) == object_text(seq![]),
{
    let members: Vec<(String, Value)> = Vec::new();
    assert(crate::json::member_texts(members@) =~= seq![]);
    object(members)
}

fn type_of(name: &str) -> (r: Value)
    ensures
        json_text(r) == type_text(name@),
{
    object1("type", string(name))
}

fn schema(properties: Value) -> (r: Value)
    ensures
        json_text(r) == schema_text(json_text(properties)),
{
    proof {
        reveal_strlit("properties");
        reveal_strlit("required");
        reveal_strlit("type");
        lemma_precedes("properties"@, "required"@);
        lemma_precedes("required"@, "type"@);
    }
    let names = vec![string("text")];
    assert(value_texts(names@) =~= seq![json_quoted("text"@)]);
    object3("properties", properties, "required", list(names), "type", string("object"))
}

fn search_schema() -> (r: Value)
    ensures
        json_text(r) == search_schema_text(),
{
    proof {
        reveal_strlit("default");
        reveal_strlit("type");
        reveal_strlit("k");
        reveal_strlit("text");
        lemma_precedes("default"@, "type"@);
        lemma_precedes("k"@, "text"@);
    }
    let k = object2("default", natural(5), "type", string("integer"));
    schema(object2("k", k, "text", type_of("string")))
}

fn describe(name: &str, description: &str, schema: Value) -> (r: Value)
    ensures
        json_text(r) == tool_text(name@, description@, json_text(schema)),
{
    proof {
        reveal_strlit("description");
        reveal_strlit("inputSchema");
        reveal_strlit("name");
        lemma_precedes("description"@, "inputSchema"@);
        lemma_precedes("inputSchema"@, "name"@);
    }
    object3("description", string(description), "inputSchema", schema, "name", string(name))
}

/// The list of the tools.
pub fn tool_list() -> (r: Value)
    ensures
        json_text(r) == tool_list_text(),
{
    proof {
        reveal_strlit("text");
        reveal_strlit("uri");
        reveal_strlit("properties");
        reveal_strlit("type");
        lemma_precedes("text"@, "uri"@);
        lemma_precedes("properties"@, "type"@);
    }
    let ingest = describe(
        "ingest",
        "Embed `text` and store it as a semantic memory under `uri`.",
        schema(object2("text", type_of("string"), "uri", type_of("string"))),
    );
    let recall = describe(
        "recall",
        "Semantic recall: the memories nearest `text`. Returns {strategy, items:[{uri,score,kind,content}], tokens} (CCOS RecallWindow shape).",
        search_schema(),
    );
    let explain = describe(
        "explain",
        "Explain a recall: the query's 3-D position, the coarse→fine zoom path, and nearest memories with distances.",
        search_schema(),
    );
    let stats = describe(
        "stats",
        "Memory statistics (count, octree nodes, arena bytes).",
        object2("properties", empty_object(), "type", string("object")),
    );
    let ghost texts = seq![
        json_text(ingest),
        json_text(recall),
        json_text(explain),
        json_text(stats),
    ];
    let tools = vec![ingest, recall, explain, stats];
    assert(value_texts(tools@) =~= texts);
    list(tools)
}

/// The member `key` of an optional value.
pub open spec fn member_of(text: Option<Seq<char>>, key: Seq<char>) -> Option<Seq<char>> {
    match text {
        Some(t) => json_field(t, key),
        None => None,
    }
}

/// The string that an optional value is; empty where it is none.
pub open spec fn string_or_empty(text: Option<Seq<char>>) -> Seq<char> {
    match text {
        Some(t) => match json_string(t) {
            Some(s) => s,
            None => Seq::empty(),
        },
        None => Seq::empty(),
    }
}

/// The number that an optional value is; `d` where it is none.
pub open spec fn natural_or(text: Option<Seq<char>>, d: usize) -> usize {
    match text {
        Some(t) => match json_natural(t) {
            Some(n) => n as usize,
            None => d,
        },
        None => d,
    }
}

pub open spec fn at_least_one(k: usize) -> usize {
    if k < 1 {
        1
    } else {
        k
    }
}

/// What the call of the tool `name` with the arguments `args` asks for.
pub open spec fn called(name: Seq<char>, args: Option<Seq<char>>) -> ToolModel {
    let uri = string_or_empty(member_of(args, "uri"@));
    let text = string_or_empty(member_of(args, "text"@));
    let anchor = string_or_empty(member_of(args, "anchor"@));
    let budget = natural_or(member_of(args, "budget"@), DEFAULT_RECALL);
    if name == "ingest"@ {
        if text.len() == 0 {
            ToolModel::Refused { reason: "ingest needs `text`"@ }
        } else {
            ToolModel::Ingest { uri, text }
        }
    } else if name == "recall"@ {
        let query = if text.len() == 0 {
            anchor
        } else {
            text
        };
        if query.len() == 0 {
            ToolModel::Refused { reason: "recall needs `text`"@ }
        } else {
            ToolModel::Recall {
                text: query,
                k: at_least_one(natural_or(member_of(args, "k"@), budget)),
            }
        }
    } else if name == "explain"@ {
        if text.len() == 0 {
            ToolModel::Refused { reason: "explain needs `text`"@ }
        } else {
            ToolModel::Explain {
                text,
                k: at_least_one(natural_or(member_of(args, "k"@), DEFAULT_RECALL)),
            }
        }
    } else if name == "stats"@ {
        ToolModel::Stats
    } else {
        ToolModel::Refused { reason: "unknown tool '"@ + name + "'"@ }
    }
}

pub open spec fn text_of_ref(v: Option<&Value>) -> Option<Seq<char>> {
    match v {
        Some(v) => Some(json_text(*v)),
        None => None,
    }
}

fn member<'a>(v: Option<&'a Value>, key: &str) -> (r: Option<&'a Value>)
    ensures
        text_of_ref(r) == member_of(text_of_ref(v), key@),
{
    match v {
        Some(v) => field(v, key),
        None => None,
    }
}

fn text_or_empty(v: Option<&Value>) -> (r: String)
    ensures
        r@ == string_or_empty(text_of_ref(v)),
{
    proof {
        reveal_strlit("");
        assert(""@ =~= Seq::<char>::empty());
    }
    match v {
        Some(v) => match as_string(v) {
            Some(s) => s,
            None => String::new(),
        },
        None => String::new(),
    }
}

fn number_or(v: Option<&Value>, d: usize) -> (r: usize)
    ensures
        r == natural_or(text_of_ref(v), d),
{
    match v {
        Some(v) => match as_natural(v) {
            Some(n) => n as usize,
            None => d,
        },
        None => d,
    }
}

fn is(text: &String, word: &str) -> (r: bool)
    ensures
        r == (text@ == word@),
{
    *text == word.to_owned()
}

fn refuse(reason: &str) -> (r: Tool)
    ensures
        r@ == (ToolModel::Refused { reason: reason@ }),
{
    Tool::Refused { reason: reason.to_owned() }
}

fn positive(k: usize) -> (r: usize)
    ensures
        r == at_least_one(k),
{
    if k < 1 {
        1
    } else {
        k
    }
}

/// What the call of the tool `name` with the arguments `args` asks for.
pub fn call_tool(name: &String, args: Option<&Value>) -> (r: Tool)
    ensures
        r@ == called(name@, text_of_ref(args)),
{
    let text = text_or_empty(member(args, "text"));
    if is(name, "ingest") {
        if text.as_str().is_empty() {
            return refuse("ingest needs `text`");
        }
        let uri = text_or_empty(member(args, "uri"));
        return Tool::Ingest { uri, text };
    }
    if is(name, "recall") {
        let query = if text.as_str().is_empty() {
            text_or_empty(member(args, "anchor"))
        } else {
            text
        };
        if query.as_str().is_empty() {
            return refuse("recall needs `text`");
        }
        let budget = number_or(member(args, "budget"), DEFAULT_RECALL);
        let k = positive(number_or(member(args, "k"), budget));
        return Tool::Recall { text: query, k };
    }
    if is(name, "explain") {
        if text.as_str().is_empty() {
            return refuse("explain needs `text`");
        }
        let k = positive(number_or(member(args, "k"), DEFAULT_RECALL));
        return Tool::Explain { text, k };
    }
    if is(name, "stats") {
        return Tool::Stats;
    }
    let mut reason = "unknown tool '".to_owned();
    reason.append(name.as_str());
    reason.append("'");
    Tool::Refused { reason }
}

/// What is answered to `initialize`.
pub open spec fn greeting_text(version: Seq<char>) -> Seq<char> {
    object_text(
        seq![
            ("capabilities"@, object_text(seq![("tools"@, object_text(seq![]))])),
            ("protocolVersion"@, json_quoted("2024-11-05"@)),
            (
                "serverInfo"@,
                object_text(
                    seq![("name"@, json_quoted("octasoma"@)), ("version"@, json_quoted(version))],
                ),
            ),
        ],
    )
}

fn greeting(version: &str) -> (r: Value)
    ensures
        json_text(r) == greeting_text(version@),
{
    proof {
        reveal_strlit("capabilities");
        reveal_strlit("protocolVersion");
        reveal_strlit("serverInfo");
        reveal_strlit("name");
        reveal_strlit("version");
        lemma_precedes("capabilities"@, "protocolVersion"@);
        lemma_precedes("protocolVersion"@, "serverInfo"@);
        lemma_precedes("name"@, "version"@);
    }
    let info = object2("name", string("octasoma"), "version", string(version));
    object3(
        "capabilities",
        object1("tools", empty_object()),
        "protocolVersion",
        string("2024-11-05"),
        "serverInfo",
        info,
    )
}

/// What to do about the request with the text `req`.
pub open spec fn requested(req: Seq<char>, version: Seq<char>) -> ActionModel {
    let id = json_field(req, "id"@);
    let method = string_or_empty(json_field(req, "method"@));
    let params = json_field(req, "params"@);
    if method == "initialize"@ {
        ActionModel::Reply { text: reply_text(id, greeting_text(version)) }
    } else if method == "notifications/initialized"@ || method == "initialized"@ {
        ActionModel::Nothing
    } else if method == "ping"@ {
        ActionModel::Reply { text: reply_text(id, object_text(seq![])) }
    } else if method == "tools/list"@ {
        ActionModel::Reply {
            text: reply_text(id, object_text(seq![("tools"@, tool_list_text())])),
        }
    } else if method == "tools/call"@ {
        ActionModel::Call {
            id,
            tool: called(
                string_or_empty(member_of(params, "name"@)),
                member_of(params, "arguments"@),
            ),
        }
    } else if id is Some {
        ActionModel::Reply {
            text: error_text(id, METHOD_NOT_FOUND as int, "method not found"@),
        }
    } else {
        ActionModel::Nothing
    }
}

fn copy_of(v: Option<&Value>) -> (r: Option<Value>)
    ensures
        text_if_any(r) == text_of_ref(v),
{
    match v {
        Some(v) => Some(copy(v)),
        None => None,
    }
}

/// What to do about a request.
pub fn handle_request(req: &Value, version: &str) -> (r: Action)
    ensures
        r@ == requested(json_text(*req), version@),
{
    let id = copy_of(field(req, "id"));
    let method = text_or_empty(field(req, "method"));
    if is(&method, "initialize") {
        return Action::Reply { text: reply(id, greeting(version)) };
    }
    if is(&method, "notifications/initialized") || is(&method, "initialized") {
        return Action::Nothing;
    }
    if is(&method, "ping") {
        return Action::Reply { text: reply(id, empty_object()) };
    }
    if is(&method, "tools/list") {
        return Action::Reply { text: reply(id, object1("tools", tool_list())) };
    }
    if is(&method, "tools/call") {
        let params = field(req, "params");
        let name = text_or_empty(member(params, "name"));
        let tool = call_tool(&name, member(params, "arguments"));
        return Action::Call { id, tool };
    }
    if id.is_some() {
        return Action::Reply { text: error(id, METHOD_NOT_FOUND, "method not found") };
    }
    Action::Nothing
}

/// What to do about a line; nothing where it is no JSON text.
pub fn handle(line: &str, version: &str) -> (r: Action)
    ensures
        r@ == match json_parsed(line@) {
            Some(req) => requested(req, version@),
            None => ActionModel::Nothing,
        },
{
    match parse(line) {
        Some(req) => handle_request(&req, version),
        None => Action::Nothing,
    }
}

/// A tool is called with a text, and a search for at least one memory; a call that gives no text
/// is refused.
pub proof fn lemma_calls_are_complete(name: Seq<char>, args: Option<Seq<char>>)
    ensures
        match called(name, args) {
            ToolModel::Ingest { uri, text } => name == "ingest"@ && text.len() > 0,
            ToolModel::Recall { text, k } => name == "recall"@ && text.len() > 0 && k >= 1,
            ToolModel::Explain { text, k } => name == "explain"@ && text.len() > 0 && k >= 1,
            ToolModel::Stats => name == "stats"@,
            ToolModel::Refused { reason } => name != "stats"@,
        },
        args is None && name != "stats"@ ==> called(name, args) is Refused,
{
    reveal_strlit("ingest");
    reveal_strlit("recall");
    reveal_strlit("explain");
    reveal_strlit("stats");
    assert("stats"@.len() == 5 && "recall"@.len() == 6 && "explain"@.len() == 7);
    assert("ingest"@.len() == 6 && "ingest"@[0] == 'i' && "recall"@[0] == 'r');
}

/// Every answer goes out under the id of the request, and a request that has an id is answered,
/// unless it says that the client is ready.
pub proof fn lemma_answers_bear_the_id(req: Seq<char>, version: Seq<char>)
    ensures
        ({
            let id = json_field(req, "id"@);
            let method = string_or_empty(json_field(req, "method"@));
            match requested(req, version) {
                ActionModel::Nothing => id is None || method == "notifications/initialized"@
                    || method == "initialized"@,
                ActionModel::Reply { text } => {
                    ||| exists|result: Seq<char>| text == #[trigger] reply_text(id, result)
                    ||| text == error_text(id, METHOD_NOT_FOUND as int, "method not found"@)
                },
                ActionModel::Call { id: asked, tool } => asked == id,
            }
        }),
{
}

} // verus!
