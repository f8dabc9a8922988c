//! What holds of the tool protocol as a whole: what each call asks for, and how each answer reads.
use crate::json::{
    boolean_text, decimal, escaped, escaped_all, integer_text, joined, json_field, json_quoted,
    json_natural, json_string, json_text, lemma_natural_of_decimal, lemma_string_of_quoted,
    list_text, null_text, object_text,
};
use crate::memory::MemoryModel;
use crate::payloads::{scheme, text_of, unpacked};
use crate::protocol::{
    called, error_text, greeting_text, id_text, reply_text, requested, schema_text,
    search_schema_text, tool_list_text, tool_reply_text, tool_text, type_text, ActionModel,
    ToolModel,
};
use crate::reports::{
    explain_text, item_text, neighbor_text, recall_text, tokens, zoom_text, Hit, Neighbor, ZoomStep,
};
use vstd::prelude::*;

verus! {

/// Whether the member `key` of the value `args` is the string `s`.
pub open spec fn has_string(args: Seq<char>, key: Seq<char>, s: Seq<char>) -> bool {
    json_field(args, key) == Some(json_quoted(s))
}

/// Whether the member `key` of the value `args` is the number `n`.
pub open spec fn has_number(args: Seq<char>, key: Seq<char>, n: u64) -> bool {
    json_field(args, key) == Some(decimal(n as nat))
}

/// Whether the value `args` has no member `key` that is a string with at least one character.
pub open spec fn lacks_string(args: Seq<char>, key: Seq<char>) -> bool {
    forall|s: Seq<char>| #[trigger] has_string(args, key, s) ==> s.len() == 0
}

/// Whether the value `args` has no member `key` that is a whole number of 64 bits.
pub open spec fn lacks_number(args: Seq<char>, key: Seq<char>) -> bool {
    forall|n: u64| !#[trigger] has_number(args, key, n)
}

/// A number of memories to find: at least one.
pub open spec fn count_of(n: u64) -> usize {
    if n as usize == 0 {
        1
    } else {
        n as usize
    }
}

proof fn lemma_string_member(args: Seq<char>, key: Seq<char>)
    ensures
        forall|s: Seq<char>| #[trigger]
            has_string(args, key, s) ==> crate::protocol::string_or_empty(
                crate::protocol::member_of(Some(args), key),
            ) == s,
        lacks_string(args, key) ==> crate::protocol::string_or_empty(
            crate::protocol::member_of(Some(args), key),
        ).len() == 0,
{
    assert forall|s: Seq<char>| #[trigger] has_string(args, key, s) implies
        crate::protocol::string_or_empty(crate::protocol::member_of(Some(args), key)) == s by {
        lemma_string_of_quoted(s);
    }
    if lacks_string(args, key) {
        match json_field(args, key) {
            Some(t) => match json_string(t) {
                Some(s) => {
                    assert(t == json_quoted(s));
                    assert(has_string(args, key, s));
                },
                None => {},
            },
            None => {},
        }
    }
}

proof fn lemma_number_member(args: Seq<char>, key: Seq<char>, d: usize)
    ensures
        forall|n: u64| #[trigger]
            has_number(args, key, n) ==> crate::protocol::natural_or(
                crate::protocol::member_of(Some(args), key),
                d,
            ) == n as usize,
        lacks_number(args, key) ==> crate::protocol::natural_or(
            crate::protocol::member_of(Some(args), key),
            d,
        ) == d,
{
    assert forall|n: u64| #[trigger] has_number(args, key, n) implies crate::protocol::natural_or(
        crate::protocol::member_of(Some(args), key),
        d,
    ) == n as usize by {
        lemma_natural_of_decimal(n);
    }
    if lacks_number(args, key) {
        match json_field(args, key) {
            Some(t) => match json_natural(t) {
                Some(n) => {
                    assert(t == decimal(n as nat));
                    assert(has_number(args, key, n));
                },
                None => {},
            },
            None => {},
        }
    }
}

/// The names of the tools differ.
proof fn lemma_tool_names()
    ensures
        "ingest"@ != "recall"@,
        "ingest"@ != "explain"@,
        "ingest"@ != "stats"@,
        "recall"@ != "explain"@,
        "recall"@ != "stats"@,
        "explain"@ != "stats"@,
{
    reveal_strlit("ingest");
    reveal_strlit("recall");
    reveal_strlit("explain");
    reveal_strlit("stats");
    assert("ingest"@[0] == 'i' && "recall"@[0] == 'r' && "explain"@[0] == 'e' && "stats"@[0] == 's');
}

/// A call of `ingest` with a text asks to store exactly that text, under the name that is given, or
/// under an empty one. Without a text it is refused.
pub proof fn lemma_ingest_call(args: Seq<char>, text: Seq<char>, uri: Seq<char>)
    ensures
        has_string(args, "text"@, text) && text.len() > 0 && has_string(args, "uri"@, uri) ==> called(
            "ingest"@,
            Some(args),
        ) == (ToolModel::Ingest { uri, text }),
        has_string(args, "text"@, text) && text.len() > 0 && lacks_string(args, "uri"@) ==> called(
            "ingest"@,
            Some(args),
        ) == (ToolModel::Ingest { uri: Seq::empty(), text }),
        lacks_string(args, "text"@) ==> called("ingest"@, Some(args)) == (ToolModel::Refused {
            reason: "ingest needs `text`"@,
        }),
{
    lemma_tool_names();
    lemma_string_member(args, "text"@);
    lemma_string_member(args, "uri"@);
    let u = crate::protocol::string_or_empty(crate::protocol::member_of(Some(args), "uri"@));
    if u.len() == 0 {
        assert(u =~= Seq::empty());
    }
}

/// A call of `recall` asks for the memories nearest to its text, or to its anchor where it has no text,
/// and for as many of them as `k` says, else as `budget` says, else for five; but for at least one.
/// Without text and anchor it is refused.
pub proof fn lemma_recall_call(args: Seq<char>, query: Seq<char>, n: u64)
    ensures
        ({
            let asked = has_string(args, "text"@, query) || (lacks_string(args, "text"@)
                && has_string(args, "anchor"@, query));
            let tool = called("recall"@, Some(args));
            &&& asked && query.len() > 0 && has_number(args, "k"@, n) ==> tool == (
            ToolModel::Recall { text: query, k: count_of(n) })
            &&& asked && query.len() > 0 && lacks_number(args, "k"@) && has_number(
                args,
                "budget"@,
                n,
            ) ==> tool == (ToolModel::Recall { text: query, k: count_of(n) })
            &&& asked && query.len() > 0 && lacks_number(args, "k"@) && lacks_number(
                args,
                "budget"@,
            ) ==> tool == (ToolModel::Recall { text: query, k: 5 })
            &&& lacks_string(args, "text"@) && lacks_string(args, "anchor"@) ==> tool == (
            ToolModel::Refused { reason: "recall needs `text`"@ })
        }),
{
    lemma_tool_names();
    lemma_string_member(args, "text"@);
    lemma_string_member(args, "anchor"@);
    lemma_number_member(args, "budget"@, 5);
    let budget = crate::protocol::natural_or(crate::protocol::member_of(Some(args), "budget"@), 5);
    lemma_number_member(args, "k"@, budget);
}

/// A call of `explain` with a text asks for exactly that text, and for as many memories as `k` says,
/// but at least one; for five, the number that the list of tools announces, where `k` is absent or is
/// no whole number. Without a text it is refused.
pub proof fn lemma_explain_call(args: Seq<char>, text: Seq<char>, n: u64)
    ensures
        ({
            let tool = called("explain"@, Some(args));
            let asked = has_string(args, "text"@, text) && text.len() > 0;
            &&& asked && has_number(args, "k"@, n) ==> tool == (ToolModel::Explain {
                text,
                k: count_of(n),
            })
            &&& asked && lacks_number(args, "k"@) ==> tool == (ToolModel::Explain { text, k: 5 })
            &&& lacks_string(args, "text"@) ==> tool == (ToolModel::Refused {
                reason: "explain needs `text`"@,
            })
        }),
{
    lemma_tool_names();
    lemma_string_member(args, "text"@);
    lemma_number_member(args, "k"@, 5);
}

/// `stats` takes no arguments. A tool that there is not is refused by its name. Without any arguments
/// every other tool lacks its text.
pub proof fn lemma_other_calls(name: Seq<char>, args: Option<Seq<char>>)
    ensures
        called("stats"@, args) == ToolModel::Stats,
        name != "ingest"@ && name != "recall"@ && name != "explain"@ && name != "stats"@ ==> called(
            name,
            args,
        ) == (ToolModel::Refused { reason: "unknown tool '"@ + name + "'"@ }),
        called("ingest"@, None) == (ToolModel::Refused { reason: "ingest needs `text`"@ }),
        called("recall"@, None) == (ToolModel::Refused { reason: "recall needs `text`"@ }),
        called("explain"@, None) == (ToolModel::Refused { reason: "explain needs `text`"@ }),
{
    lemma_tool_names();
}

/// The names of the methods differ.
proof fn lemma_method_names()
    ensures
        "initialize"@ != "ping"@,
        "initialize"@ != "tools/list"@,
        "initialize"@ != "tools/call"@,
        "initialize"@ != "initialized"@,
        "initialize"@ != "notifications/initialized"@,
        "ping"@ != "tools/list"@,
        "ping"@ != "tools/call"@,
        "ping"@ != "initialized"@,
        "ping"@ != "notifications/initialized"@,
        "tools/list"@ != "tools/call"@,
        "tools/list"@ != "initialized"@,
        "tools/list"@ != "notifications/initialized"@,
        "tools/call"@ != "initialized"@,
        "tools/call"@ != "notifications/initialized"@,
{
    reveal_strlit("initialize");
    reveal_strlit("ping");
    reveal_strlit("tools/list");
    reveal_strlit("tools/call");
    reveal_strlit("initialized");
    reveal_strlit("notifications/initialized");
    assert("initialize"@.len() == 10 && "ping"@.len() == 4 && "initialized"@.len() == 11);
    assert("notifications/initialized"@.len() == 25);
    assert("tools/list"@.len() == 10 && "tools/call"@.len() == 10);
    assert("initialize"@[0] == 'i' && "tools/list"@[0] == 't' && "tools/call"@[0] == 't');
    assert("tools/list"@[6] == 'l' && "tools/call"@[6] == 'c');
}

/// A tool call hands over the name and the arguments of the call, under the id of the request.
pub proof fn lemma_tool_call_request(
    req: Seq<char>,
    version: Seq<char>,
    params: Seq<char>,
    name: Seq<char>,
)
    requires
        has_string(req, "method"@, "tools/call"@),
        json_field(req, "params"@) == Some(params),
        has_string(params, "name"@, name),
    ensures
        requested(req, version) == (ActionModel::Call {
            id: json_field(req, "id"@),
            tool: called(name, json_field(params, "arguments"@)),
        }),
{
    lemma_method_names();
    lemma_string_of_quoted("tools/call"@);
    lemma_string_of_quoted(name);
}

/// What the other methods are answered.
pub proof fn lemma_plain_requests(req: Seq<char>, version: Seq<char>, method: Seq<char>)
    ensures
        ({
            let id = json_field(req, "id"@);
            let action = requested(req, version);
            &&& has_string(req, "method"@, "initialize"@) ==> action == (ActionModel::Reply {
                text: reply_text(id, greeting_text(version)),
            })
            &&& has_string(req, "method"@, "ping"@) ==> action == (ActionModel::Reply {
                text: reply_text(id, object_text(seq![])),
            })
            &&& has_string(req, "method"@, "tools/list"@) ==> action == (ActionModel::Reply {
                text: reply_text(id, object_text(seq![("tools"@, tool_list_text())])),
            })
            &&& has_string(req, "method"@, "initialized"@) ==> action == ActionModel::Nothing
            &&& has_string(req, "method"@, "notifications/initialized"@) ==> action
                == ActionModel::Nothing
            &&& has_string(req, "method"@, method) && method != "initialize"@ && method != "ping"@
                && method != "tools/list"@ && method != "tools/call"@ && method != "initialized"@
                && method != "notifications/initialized"@ ==> action == match id {
                Some(x) => ActionModel::Reply {
                    text: error_text(id, -32601, "method not found"@),
                },
                None => ActionModel::Nothing,
            }
        }),
{
    lemma_method_names();
    lemma_string_of_quoted("initialize"@);
    lemma_string_of_quoted("ping"@);
    lemma_string_of_quoted("tools/list"@);
    lemma_string_of_quoted("initialized"@);
    lemma_string_of_quoted("notifications/initialized"@);
    lemma_string_of_quoted(method);
}

/// Whether no character needs an escape.
pub open spec fn is_plain(s: Seq<char>) -> bool {
    forall|i: int| 0 <= i < s.len() ==> #[trigger] s[i] != '"' && s[i] != '\\' && s[i] as u32 >= 32
}

/// A string without characters that need an escape is written as it is, in quotation marks.
pub proof fn lemma_plain_quoted(s: Seq<char>)
    requires
        is_plain(s),
    ensures
        json_quoted(s) == seq!['"'] + s + seq!['"'],
{
    lemma_plain_escaped(s);
}

proof fn lemma_plain_escaped(s: Seq<char>)
    requires
        is_plain(s),
    ensures
        escaped_all(s) == s,
    decreases s.len(),
{
    if s.len() > 0 {
        let rest = s.drop_first();
        assert forall|i: int| 0 <= i < rest.len() implies #[trigger] rest[i] != '"' && rest[i]
            != '\\' && rest[i] as u32 >= 32 by {
            assert(rest[i] == s[i + 1]);
        }
        lemma_plain_escaped(rest);
        assert(escaped(s[0]) == seq![s[0]]);
        assert(seq![s[0]] + rest =~= s);
    } else {
        assert(s =~= Seq::empty());
    }
}

/// How an object with two members reads.
pub proof fn lemma_two_members(a: Seq<char>, x: Seq<char>, b: Seq<char>, y: Seq<char>)
    ensures
        object_text(seq![(a, x), (b, y)]) == seq!['{'] + json_quoted(a) + seq![':'] + x + seq![',']
            + json_quoted(b) + seq![':'] + y + seq!['}'],
{
    let members = seq![(a, x), (b, y)];
    let parts = Seq::new(
        members.len(),
        |i: int| json_quoted(members[i].0) + seq![':'] + members[i].1,
    );
    reveal_with_fuel(joined, 3);
    assert(parts.drop_last().len() == 1);
    assert(parts.drop_last()[0] == json_quoted(a) + seq![':'] + x);
    assert(parts.last() == json_quoted(b) + seq![':'] + y);
    assert(object_text(members) =~= seq!['{'] + json_quoted(a) + seq![':'] + x + seq![',']
        + json_quoted(b) + seq![':'] + y + seq!['}']);
}

/// How an object with three members reads.
pub proof fn lemma_three_members(
    a: Seq<char>,
    x: Seq<char>,
    b: Seq<char>,
    y: Seq<char>,
    c: Seq<char>,
    z: Seq<char>,
)
    ensures
        object_text(seq![(a, x), (b, y), (c, z)]) == seq!['{'] + json_quoted(a) + seq![':'] + x
            + seq![','] + json_quoted(b) + seq![':'] + y + seq![','] + json_quoted(c) + seq![':']
            + z + seq!['}'],
{
    let members = seq![(a, x), (b, y), (c, z)];
    let parts = Seq::new(
        members.len(),
        |i: int| json_quoted(members[i].0) + seq![':'] + members[i].1,
    );
    let two = parts.drop_last();
    let one = two.drop_last();
    assert(joined(one) == json_quoted(a) + seq![':'] + x);
    assert(joined(two) == joined(one) + seq![','] + (json_quoted(b) + seq![':'] + y));
    assert(joined(parts) == joined(two) + seq![','] + (json_quoted(c) + seq![':'] + z));
    assert(object_text(members) =~= seq!['{'] + json_quoted(a) + seq![':'] + x + seq![',']
        + json_quoted(b) + seq![':'] + y + seq![','] + json_quoted(c) + seq![':'] + z + seq!['}']);
}

/// How an answer reads: the id of the request, the version of the protocol and the result.
pub proof fn lemma_reply_reads(id: Option<Seq<char>>, result: Seq<char>)
    ensures
        reply_text(id, result) == "{\"id\":"@ + match id {
            Some(t) => t,
            None => "null"@,
        } + ",\"jsonrpc\":\"2.0\",\"result\":"@ + result + "}"@,
{
    reveal_strlit("{\"id\":");
    reveal_strlit(",\"jsonrpc\":\"2.0\",\"result\":");
    reveal_strlit("}");
    reveal_strlit("null");
    reveal_strlit("id");
    reveal_strlit("jsonrpc");
    reveal_strlit("2.0");
    reveal_strlit("result");
    lemma_plain_quoted("id"@);
    lemma_plain_quoted("jsonrpc"@);
    lemma_plain_quoted("2.0"@);
    lemma_plain_quoted("result"@);
    let shown = match id {
        Some(t) => t,
        None => "null"@,
    };
    assert("null"@ =~= null_text());
    assert(id_text(id) == shown);
    lemma_three_members("id"@, shown, "jsonrpc"@, json_quoted("2.0"@), "result"@, result);
    assert("{\"id\":"@ =~= seq!['{'] + json_quoted("id"@) + seq![':']);
    assert(",\"jsonrpc\":\"2.0\",\"result\":"@ =~= seq![','] + json_quoted("jsonrpc"@) + seq![':']
        + json_quoted("2.0"@) + seq![','] + json_quoted("result"@) + seq![':']);
    assert("}"@ =~= seq!['}']);
    assert(reply_text(id, result) =~= "{\"id\":"@ + shown + ",\"jsonrpc\":\"2.0\",\"result\":"@
        + result + "}"@);
}

/// How an error reads.
pub proof fn lemma_error_reads(id: Option<Seq<char>>, code: int, message: Seq<char>)
    ensures
        error_text(id, code, message) == "{\"error\":{\"code\":"@ + integer_text(code)
            + ",\"message\":"@ + json_quoted(message) + "},\"id\":"@ + match id {
            Some(t) => t,
            None => "null"@,
        } + ",\"jsonrpc\":\"2.0\"}"@,
{
    reveal_strlit("{\"error\":{\"code\":");
    reveal_strlit(",\"message\":");
    reveal_strlit("},\"id\":");
    reveal_strlit(",\"jsonrpc\":\"2.0\"}");
    reveal_strlit("null");
    reveal_strlit("error");
    reveal_strlit("code");
    reveal_strlit("message");
    reveal_strlit("id");
    reveal_strlit("jsonrpc");
    reveal_strlit("2.0");
    lemma_plain_quoted("error"@);
    lemma_plain_quoted("code"@);
    lemma_plain_quoted("message"@);
    lemma_plain_quoted("id"@);
    lemma_plain_quoted("jsonrpc"@);
    lemma_plain_quoted("2.0"@);
    let q = json_quoted(message);
    let shown = match id {
        Some(t) => t,
        None => "null"@,
    };
    assert("null"@ =~= null_text());
    let c = integer_text(code);
    let body = object_text(seq![("code"@, c), ("message"@, q)]);
    lemma_two_members("code"@, c, "message"@, q);
    lemma_three_members("error"@, body, "id"@, shown, "jsonrpc"@, json_quoted("2.0"@));
    assert("{\"error\":{\"code\":"@ =~= seq!['{'] + json_quoted("error"@) + seq![':'] + seq!['{']
        + json_quoted("code"@) + seq![':']);
    assert(",\"message\":"@ =~= seq![','] + json_quoted("message"@) + seq![':']);
    assert("},\"id\":"@ =~= seq!['}'] + seq![','] + json_quoted("id"@) + seq![':']);
    assert(",\"jsonrpc\":\"2.0\"}"@ =~= seq![','] + json_quoted("jsonrpc"@) + seq![':']
        + json_quoted("2.0"@) + seq!['}']);
    assert(error_text(id, code, message) =~= "{\"error\":{\"code\":"@ + c + ",\"message\":"@ + q
        + "},\"id\":"@ + shown + ",\"jsonrpc\":\"2.0\"}"@);
}

/// How the answer to a tool call reads: the text of what the tool yields, and whether it failed.
pub proof fn lemma_tool_reply_reads(id: Option<Seq<char>>, text: Seq<char>, is_error: bool)
    ensures
        tool_reply_text(id, text, is_error) == reply_text(
            id,
            "{\"content\":[{\"text\":"@ + json_quoted(text) + ",\"type\":\"text\"}],\"isError\":"@
                + (if is_error {
                "true"@
            } else {
                "false"@
            }) + "}"@,
        ),
{
    reveal_strlit("{\"content\":[{\"text\":");
    reveal_strlit(",\"type\":\"text\"}],\"isError\":");
    reveal_strlit("}");
    reveal_strlit("true");
    reveal_strlit("false");
    reveal_strlit("content");
    reveal_strlit("text");
    reveal_strlit("type");
    reveal_strlit("isError");
    lemma_plain_quoted("content"@);
    lemma_plain_quoted("text"@);
    lemma_plain_quoted("type"@);
    lemma_plain_quoted("isError"@);
    assert("true"@ =~= boolean_text(true));
    assert("false"@ =~= boolean_text(false));
    let q = json_quoted(text);
    let part = object_text(seq![("text"@, q), ("type"@, json_quoted("text"@))]);
    lemma_two_members("text"@, q, "type"@, json_quoted("text"@));
    let items = seq![part];
    assert(joined(items) == part);
    let content = list_text(items);
    let flag = boolean_text(is_error);
    lemma_two_members("content"@, content, "isError"@, flag);
    assert("{\"content\":[{\"text\":"@ =~= seq!['{'] + json_quoted("content"@) + seq![':']
        + seq!['['] + seq!['{'] + json_quoted("text"@) + seq![':']);
    assert(",\"type\":\"text\"}],\"isError\":"@ =~= seq![','] + json_quoted("type"@) + seq![':']
        + json_quoted("text"@) + seq!['}'] + seq![']'] + seq![','] + json_quoted("isError"@)
        + seq![':']);
    assert("}"@ =~= seq!['}']);
    assert(object_text(seq![("content"@, content), ("isError"@, flag)])
        =~= "{\"content\":[{\"text\":"@ + q + ",\"type\":\"text\"}],\"isError\":"@ + flag + "}"@);
}

/// Parts are joined in their order, with one comma wherever two of them meet.
pub proof fn lemma_joined_splits(a: Seq<Seq<char>>, b: Seq<Seq<char>>)
    requires
        a.len() > 0,
        b.len() > 0,
    ensures
        joined(a + b) == joined(a) + seq![','] + joined(b),
        a.len() == 1 ==> joined(a) == a[0],
    decreases b.len(),
{
    let all = a + b;
    assert(all.last() == b.last());
    if b.len() == 1 {
        assert(all.drop_last() =~= a);
    } else {
        assert(all.drop_last() =~= a + b.drop_last());
        lemma_joined_splits(a, b.drop_last());
        assert(joined(all) =~= joined(a) + seq![','] + joined(b));
    }
}

/// The characters of a string are escaped one by one.
pub proof fn lemma_escapes_split(a: Seq<char>, b: Seq<char>)
    ensures
        escaped_all(a + b) == escaped_all(a) + escaped_all(b),
        escaped_all(Seq::empty()) == Seq::<char>::empty(),
        a.len() == 1 ==> escaped_all(a) == escaped(a[0]),
    decreases a.len(),
{
    reveal_with_fuel(escaped_all, 2);
    if a.len() == 0 {
        assert(a + b =~= b);
        assert(escaped_all(a) + escaped_all(b) =~= escaped_all(b));
    } else {
        assert((a + b).drop_first() =~= a.drop_first() + b);
        lemma_escapes_split(a.drop_first(), b);
        assert(escaped_all(a + b) =~= escaped_all(a) + escaped_all(b));
        if a.len() == 1 {
            assert(a.drop_first() =~= Seq::empty());
            assert(escaped_all(a) =~= escaped(a[0]));
        }
    }
}

/// The number that decimal digits stand for.
pub open spec fn digits_value(s: Seq<char>) -> nat
    decreases s.len(),
{
    if s.len() == 0 {
        0
    } else {
        (10 * digits_value(s.drop_last()) + (s.last() as int - 48)) as nat
    }
}

/// The decimal digits of a number are digits, stand for the number, and do not start with 0 unless it
/// is 0.
pub proof fn lemma_decimal_digits(n: nat)
    ensures
        decimal(n).len() > 0,
        forall|i: int| 0 <= i < decimal(n).len() ==> 48 <= #[trigger] decimal(n)[i] as int <= 57,
        digits_value(decimal(n)) == n,
        n > 0 ==> decimal(n)[0] as int != 48,
    decreases n,
{
    reveal_with_fuel(digits_value, 2);
    if n >= 10 {
        lemma_decimal_digits(n / 10);
        assert(decimal(n).drop_last() =~= decimal(n / 10));
    }
}

/// How an object with four members reads.
pub proof fn lemma_four_members(
    a: Seq<char>,
    x: Seq<char>,
    b: Seq<char>,
    y: Seq<char>,
    c: Seq<char>,
    z: Seq<char>,
    d: Seq<char>,
    w: Seq<char>,
)
    ensures
        object_text(seq![(a, x), (b, y), (c, z), (d, w)]) == seq!['{'] + json_quoted(a) + seq![':']
            + x + seq![','] + json_quoted(b) + seq![':'] + y + seq![','] + json_quoted(c)
            + seq![':'] + z + seq![','] + json_quoted(d) + seq![':'] + w + seq!['}'],
{
    let members = seq![(a, x), (b, y), (c, z), (d, w)];
    let parts = Seq::new(
        members.len(),
        |i: int| json_quoted(members[i].0) + seq![':'] + members[i].1,
    );
    let three = parts.drop_last();
    let two = three.drop_last();
    let one = two.drop_last();
    assert(joined(one) == json_quoted(a) + seq![':'] + x);
    assert(joined(two) == joined(one) + seq![','] + (json_quoted(b) + seq![':'] + y));
    assert(joined(three) == joined(two) + seq![','] + (json_quoted(c) + seq![':'] + z));
    assert(joined(parts) == joined(three) + seq![','] + (json_quoted(d) + seq![':'] + w));
    assert(object_text(members) =~= seq!['{'] + json_quoted(a) + seq![':'] + x + seq![',']
        + json_quoted(b) + seq![':'] + y + seq![','] + json_quoted(c) + seq![':'] + z + seq![',']
        + json_quoted(d) + seq![':'] + w + seq!['}']);
}

/// How a recalled memory reads: its text, the scheme of its name, its score and its name.
pub proof fn lemma_item_reads(m: MemoryModel, hit: Hit, uri: Seq<char>, content: Seq<char>)
    requires
        m.memory_text(hit.id as int) == (uri, content),
    ensures
        item_text(m, hit) == "{\"content\":"@ + json_quoted(content) + ",\"kind\":"@ + json_quoted(
            scheme(uri),
        ) + ",\"score\":"@ + json_text(hit.score) + ",\"uri\":"@ + json_quoted(uri) + "}"@,
{
    reveal_strlit("{\"content\":");
    reveal_strlit(",\"kind\":");
    reveal_strlit(",\"score\":");
    reveal_strlit(",\"uri\":");
    reveal_strlit("}");
    reveal_strlit("content");
    reveal_strlit("kind");
    reveal_strlit("score");
    reveal_strlit("uri");
    lemma_plain_quoted("content"@);
    lemma_plain_quoted("kind"@);
    lemma_plain_quoted("score"@);
    lemma_plain_quoted("uri"@);
    let x = json_quoted(content);
    let y = json_quoted(scheme(uri));
    let z = json_text(hit.score);
    let w = json_quoted(uri);
    lemma_four_members("content"@, x, "kind"@, y, "score"@, z, "uri"@, w);
    assert("{\"content\":"@ =~= seq!['{'] + json_quoted("content"@) + seq![':']);
    assert(",\"kind\":"@ =~= seq![','] + json_quoted("kind"@) + seq![':']);
    assert(",\"score\":"@ =~= seq![','] + json_quoted("score"@) + seq![':']);
    assert(",\"uri\":"@ =~= seq![','] + json_quoted("uri"@) + seq![':']);
    assert("}"@ =~= seq!['}']);
    assert(item_text(m, hit) =~= "{\"content\":"@ + x + ",\"kind\":"@ + y + ",\"score\":"@ + z
        + ",\"uri\":"@ + w + "}"@);
}

/// How what `recall` yields reads: every memory that was found, in the order in which it was, then the
/// strategy and the tokens.
pub proof fn lemma_recall_reads(m: MemoryModel, hits: Seq<Hit>, items: Seq<Seq<char>>)
    requires
        items.len() == hits.len(),
        forall|i: int| 0 <= i < hits.len() ==> #[trigger] items[i] == item_text(m, hits[i]),
    ensures
        recall_text(m, hits) == "{\"items\":["@ + joined(items)
            + "],\"strategy\":\"semantic\",\"tokens\":"@ + decimal(
            tokens(m, hits, hits.len()) as nat,
        ) + "}"@,
{
    reveal_strlit("{\"items\":[");
    reveal_strlit("],\"strategy\":\"semantic\",\"tokens\":");
    reveal_strlit("}");
    reveal_strlit("items");
    reveal_strlit("strategy");
    reveal_strlit("semantic");
    reveal_strlit("tokens");
    lemma_plain_quoted("items"@);
    lemma_plain_quoted("strategy"@);
    lemma_plain_quoted("semantic"@);
    lemma_plain_quoted("tokens"@);
    let made = Seq::new(hits.len(), |i: int| item_text(m, hits[i]));
    assert(made =~= items);
    let x = list_text(items);
    let n = decimal(tokens(m, hits, hits.len()) as nat);
    let y = joined(items);
    lemma_three_members("items"@, x, "strategy"@, json_quoted("semantic"@), "tokens"@, n);
    assert("{\"items\":["@ =~= seq!['{'] + json_quoted("items"@) + seq![':'] + seq!['[']);
    assert("],\"strategy\":\"semantic\",\"tokens\":"@ =~= seq![']'] + seq![','] + json_quoted(
        "strategy"@,
    ) + seq![':'] + json_quoted("semantic"@) + seq![','] + json_quoted("tokens"@) + seq![':']);
    assert("}"@ =~= seq!['}']);
    assert(recall_text(m, hits) =~= "{\"items\":["@ + y
        + "],\"strategy\":\"semantic\",\"tokens\":"@ + n + "}"@);
}

/// How what `explain` yields reads: every memory nearby, the query's place and every step of the way, in
/// the order in which they were handed over.
pub proof fn lemma_explain_reads(
    query_point: Seq<char>,
    zoom_path: Seq<ZoomStep>,
    neighbors: Seq<Neighbor>,
    near: Seq<Seq<char>>,
    steps: Seq<Seq<char>>,
)
    requires
        near.len() == neighbors.len(),
        steps.len() == zoom_path.len(),
        forall|i: int| 0 <= i < neighbors.len() ==> #[trigger] near[i] == neighbor_text(neighbors[i]),
        forall|i: int| 0 <= i < zoom_path.len() ==> #[trigger] steps[i] == zoom_text(zoom_path[i]),
    ensures
        explain_text(query_point, zoom_path, neighbors) == "{\"neighbors\":["@ + joined(near)
            + "],\"query_point\":"@ + query_point + ",\"zoom_path\":["@ + joined(steps) + "]}"@,
{
    reveal_strlit("{\"neighbors\":[");
    reveal_strlit("],\"query_point\":");
    reveal_strlit(",\"zoom_path\":[");
    reveal_strlit("]}");
    reveal_strlit("neighbors");
    reveal_strlit("query_point");
    reveal_strlit("zoom_path");
    lemma_plain_quoted("neighbors"@);
    lemma_plain_quoted("query_point"@);
    lemma_plain_quoted("zoom_path"@);
    assert(near =~= Seq::new(neighbors.len(), |i: int| neighbor_text(neighbors[i])));
    assert(steps =~= Seq::new(zoom_path.len(), |i: int| zoom_text(zoom_path[i])));
    let x = joined(near);
    let z = joined(steps);
    lemma_three_members(
        "neighbors"@,
        list_text(near),
        "query_point"@,
        query_point,
        "zoom_path"@,
        list_text(steps),
    );
    assert("{\"neighbors\":["@ =~= seq!['{'] + json_quoted("neighbors"@) + seq![':'] + seq!['[']);
    assert("],\"query_point\":"@ =~= seq![']'] + seq![','] + json_quoted("query_point"@) + seq![':']);
    assert(",\"zoom_path\":["@ =~= seq![','] + json_quoted("zoom_path"@) + seq![':'] + seq!['[']);
    assert("]}"@ =~= seq![']'] + seq!['}']);
    assert(explain_text(query_point, zoom_path, neighbors) =~= "{\"neighbors\":["@ + x
        + "],\"query_point\":"@ + query_point + ",\"zoom_path\":["@ + z + "]}"@);
}

/// How a memory nearby reads: its text, its distance, its place and its name.
pub proof fn lemma_neighbor_reads(neighbor: Neighbor, uri: Seq<char>, content: Seq<char>)
    requires
        unpacked(text_of(neighbor.payload@)) == (uri, content),
    ensures
        neighbor_text(neighbor) == "{\"content\":"@ + json_quoted(content) + ",\"distance\":"@
            + json_text(neighbor.distance) + ",\"point\":"@ + json_text(neighbor.point)
            + ",\"uri\":"@ + json_quoted(uri) + "}"@,
{
    reveal_strlit("{\"content\":");
    reveal_strlit(",\"distance\":");
    reveal_strlit(",\"point\":");
    reveal_strlit(",\"uri\":");
    reveal_strlit("}");
    reveal_strlit("content");
    reveal_strlit("distance");
    reveal_strlit("point");
    reveal_strlit("uri");
    lemma_plain_quoted("content"@);
    lemma_plain_quoted("distance"@);
    lemma_plain_quoted("point"@);
    lemma_plain_quoted("uri"@);
    let x = json_quoted(content);
    let y = json_text(neighbor.distance);
    let z = json_text(neighbor.point);
    let w = json_quoted(uri);
    lemma_four_members("content"@, x, "distance"@, y, "point"@, z, "uri"@, w);
    assert("{\"content\":"@ =~= seq!['{'] + json_quoted("content"@) + seq![':']);
    assert(",\"distance\":"@ =~= seq![','] + json_quoted("distance"@) + seq![':']);
    assert(",\"point\":"@ =~= seq![','] + json_quoted("point"@) + seq![':']);
    assert(",\"uri\":"@ =~= seq![','] + json_quoted("uri"@) + seq![':']);
    assert("}"@ =~= seq!['}']);
    assert(neighbor_text(neighbor) =~= "{\"content\":"@ + x + ",\"distance\":"@ + y
        + ",\"point\":"@ + z + ",\"uri\":"@ + w + "}"@);
}

/// How a step of the way reads: the count, the half size and the level.
pub proof fn lemma_step_reads(step: ZoomStep)
    ensures
        zoom_text(step) == "{\"count\":"@ + decimal(step.count as nat) + ",\"half_size\":"@
            + json_text(step.half_size) + ",\"level\":"@ + decimal(step.level as nat) + "}"@,
{
    reveal_strlit("{\"count\":");
    reveal_strlit(",\"half_size\":");
    reveal_strlit(",\"level\":");
    reveal_strlit("}");
    reveal_strlit("count");
    reveal_strlit("half_size");
    reveal_strlit("level");
    lemma_plain_quoted("count"@);
    lemma_plain_quoted("half_size"@);
    lemma_plain_quoted("level"@);
    let x = decimal(step.count as nat);
    let y = json_text(step.half_size);
    let z = decimal(step.level as nat);
    lemma_three_members("count"@, x, "half_size"@, y, "level"@, z);
    assert("{\"count\":"@ =~= seq!['{'] + json_quoted("count"@) + seq![':']);
    assert(",\"half_size\":"@ =~= seq![','] + json_quoted("half_size"@) + seq![':']);
    assert(",\"level\":"@ =~= seq![','] + json_quoted("level"@) + seq![':']);
    assert("}"@ =~= seq!['}']);
    assert(zoom_text(step) =~= "{\"count\":"@ + x + ",\"half_size\":"@ + y + ",\"level\":"@ + z
        + "}"@);
}

/// How an object with one member reads.
pub proof fn lemma_one_member(a: Seq<char>, x: Seq<char>)
    ensures
        object_text(seq![(a, x)]) == seq!['{'] + json_quoted(a) + seq![':'] + x + seq!['}'],
{
    let members = seq![(a, x)];
    let parts = Seq::new(
        members.len(),
        |i: int| json_quoted(members[i].0) + seq![':'] + members[i].1,
    );
    assert(joined(parts) == json_quoted(a) + seq![':'] + x);
    assert(object_text(members) =~= seq!['{'] + json_quoted(a) + seq![':'] + x + seq!['}']);
}

/// A request without a method is as one for a method that there is not, and a tool call without
/// parameters, or without a name among them, is as one for a tool without a name.
pub proof fn lemma_incomplete_requests(req: Seq<char>, version: Seq<char>)
    ensures
        lacks_string(req, "method"@) ==> requested(req, version) == match json_field(req, "id"@) {
            Some(x) => ActionModel::Reply {
                text: error_text(json_field(req, "id"@), -32601, "method not found"@),
            },
            None => ActionModel::Nothing,
        },
        has_string(req, "method"@, "tools/call"@) && json_field(req, "params"@) is None ==> requested(
            req,
            version,
        ) == (ActionModel::Call {
            id: json_field(req, "id"@),
            tool: ToolModel::Refused { reason: "unknown tool ''"@ },
        }),
        has_string(req, "method"@, "tools/call"@) && json_field(req, "params"@) is Some
            && lacks_string(json_field(req, "params"@)->0, "name"@) ==> requested(req, version) == (
        ActionModel::Call {
            id: json_field(req, "id"@),
            tool: ToolModel::Refused { reason: "unknown tool ''"@ },
        }),
{
    lemma_method_names();
    lemma_string_member(req, "method"@);
    lemma_string_of_quoted("tools/call"@);
    reveal_strlit("initialize");
    reveal_strlit("ping");
    reveal_strlit("tools/list");
    reveal_strlit("tools/call");
    reveal_strlit("initialized");
    reveal_strlit("notifications/initialized");
    reveal_strlit("ingest");
    reveal_strlit("recall");
    reveal_strlit("explain");
    reveal_strlit("stats");
    reveal_strlit("unknown tool '");
    reveal_strlit("'");
    reveal_strlit("unknown tool ''");
    let none = Seq::<char>::empty();
    assert("unknown tool '"@ + none + "'"@ =~= "unknown tool ''"@);
    assert("initialize"@.len() == 10 && "ping"@.len() == 4 && "initialized"@.len() == 11);
    assert("tools/list"@.len() == 10 && "tools/call"@.len() == 10);
    assert("notifications/initialized"@.len() == 25);
    assert("ingest"@.len() == 6 && "recall"@.len() == 6 && "explain"@.len() == 7 && "stats"@.len()
        == 5);
    match json_field(req, "params"@) {
        Some(params) => {
            lemma_string_member(params, "name"@);
            let name = crate::protocol::string_or_empty(
                crate::protocol::member_of(Some(params), "name"@),
            );
            if name.len() == 0 {
                assert(name =~= none);
            }
        },
        None => {},
    }
}

/// How the empty object reads.
pub proof fn lemma_no_members()
    ensures
        object_text(seq![]) == seq!['{', '}'],
{
    let members = Seq::<(Seq<char>, Seq<char>)>::empty();
    let parts = Seq::new(
        members.len(),
        |i: int| json_quoted(members[i].0) + seq![':'] + members[i].1,
    );
    assert(parts.len() == 0);
    assert(joined(parts) =~= Seq::<char>::empty());
    assert(object_text(seq![]) =~= seq!['{', '}']);
}

/// How the answer to `initialize` reads.
#[verifier::rlimit(60)]
pub proof fn lemma_greeting_reads(version: Seq<char>)
    ensures
        greeting_text(version)
            == "{\"capabilities\":{\"tools\":{}},\"protocolVersion\":\"2024-11-05\","@
            + "\"serverInfo\":{\"name\":\"octasoma\",\"version\":"@ + json_quoted(version) + "}}"@,
{
    reveal_strlit("{\"capabilities\":{\"tools\":{}},\"protocolVersion\":\"2024-11-05\",");
    reveal_strlit("\"serverInfo\":{\"name\":\"octasoma\",\"version\":");
    reveal_strlit("}}");
    reveal_strlit("capabilities");
    reveal_strlit("tools");
    reveal_strlit("protocolVersion");
    reveal_strlit("2024-11-05");
    reveal_strlit("serverInfo");
    reveal_strlit("name");
    reveal_strlit("octasoma");
    reveal_strlit("version");
    lemma_plain_quoted("capabilities"@);
    lemma_plain_quoted("tools"@);
    lemma_plain_quoted("protocolVersion"@);
    lemma_plain_quoted("2024-11-05"@);
    lemma_plain_quoted("serverInfo"@);
    lemma_plain_quoted("name"@);
    lemma_plain_quoted("octasoma"@);
    lemma_plain_quoted("version"@);
    lemma_no_members();
    let none = object_text(seq![]);
    let tools = object_text(seq![("tools"@, none)]);
    lemma_one_member("tools"@, none);
    let v = json_quoted(version);
    let info = object_text(seq![("name"@, json_quoted("octasoma"@)), ("version"@, v)]);
    lemma_two_members("name"@, json_quoted("octasoma"@), "version"@, v);
    lemma_three_members(
        "capabilities"@,
        tools,
        "protocolVersion"@,
        json_quoted("2024-11-05"@),
        "serverInfo"@,
        info,
    );
    let a = "{\"capabilities\":{\"tools\":{}},\"protocolVersion\":\"2024-11-05\","@;
    let b = "\"serverInfo\":{\"name\":\"octasoma\",\"version\":"@;
    assert(a =~= seq!['{'] + json_quoted("capabilities"@) + seq![':'] + tools + seq![',']
        + json_quoted("protocolVersion"@) + seq![':'] + json_quoted("2024-11-05"@) + seq![',']);
    assert(b =~= json_quoted("serverInfo"@) + seq![':'] + seq!['{'] + json_quoted("name"@)
        + seq![':'] + json_quoted("octasoma"@) + seq![','] + json_quoted("version"@) + seq![':']);
    assert("}}"@ =~= seq!['}'] + seq!['}']);
    assert(greeting_text(version) =~= a + b + v + "}}"@);
}

/// How the description of a tool reads.
pub proof fn lemma_tool_reads(name: Seq<char>, description: Seq<char>, schema: Seq<char>)
    ensures
        tool_text(name, description, schema) == "{\"description\":"@ + json_quoted(description)
            + ",\"inputSchema\":"@ + schema + ",\"name\":"@ + json_quoted(name) + "}"@,
{
    reveal_strlit("{\"description\":");
    reveal_strlit(",\"inputSchema\":");
    reveal_strlit(",\"name\":");
    reveal_strlit("}");
    reveal_strlit("description");
    reveal_strlit("inputSchema");
    reveal_strlit("name");
    lemma_plain_quoted("description"@);
    lemma_plain_quoted("inputSchema"@);
    lemma_plain_quoted("name"@);
    let x = json_quoted(description);
    let z = json_quoted(name);
    lemma_three_members("description"@, x, "inputSchema"@, schema, "name"@, z);
    assert("{\"description\":"@ =~= seq!['{'] + json_quoted("description"@) + seq![':']);
    assert(",\"inputSchema\":"@ =~= seq![','] + json_quoted("inputSchema"@) + seq![':']);
    assert(",\"name\":"@ =~= seq![','] + json_quoted("name"@) + seq![':']);
    assert("}"@ =~= seq!['}']);
    assert(tool_text(name, description, schema) =~= "{\"description\":"@ + x + ",\"inputSchema\":"@
        + schema + ",\"name\":"@ + z + "}"@);
}

/// How the arguments of a tool that needs a text are described.
pub proof fn lemma_schema_reads(properties: Seq<char>)
    ensures
        schema_text(properties) == "{\"properties\":"@ + properties
            + ",\"required\":[\"text\"],\"type\":\"object\"}"@,
{
    reveal_strlit("{\"properties\":");
    reveal_strlit(",\"required\":[\"text\"],\"type\":\"object\"}");
    reveal_strlit("properties");
    reveal_strlit("required");
    reveal_strlit("text");
    reveal_strlit("type");
    reveal_strlit("object");
    lemma_plain_quoted("properties"@);
    lemma_plain_quoted("required"@);
    lemma_plain_quoted("text"@);
    lemma_plain_quoted("type"@);
    lemma_plain_quoted("object"@);
    let names = seq![json_quoted("text"@)];
    assert(joined(names) == json_quoted("text"@));
    let l = list_text(names);
    lemma_three_members("properties"@, properties, "required"@, l, "type"@, json_quoted("object"@));
    assert("{\"properties\":"@ =~= seq!['{'] + json_quoted("properties"@) + seq![':']);
    assert(",\"required\":[\"text\"],\"type\":\"object\"}"@ =~= seq![','] + json_quoted("required"@)
        + seq![':'] + l + seq![','] + json_quoted("type"@) + seq![':'] + json_quoted("object"@)
        + seq!['}']);
    assert(schema_text(properties) =~= "{\"properties\":"@ + properties
        + ",\"required\":[\"text\"],\"type\":\"object\"}"@);
}

/// The search tools announce that five memories are found where the call does not say how many.
#[verifier::rlimit(60)]
pub proof fn lemma_search_schema_reads()
    ensures
        search_schema_text() == "{\"properties\":"@
            + "{\"k\":{\"default\":5,\"type\":\"integer\"},\"text\":{\"type\":\"string\"}}"@
            + ",\"required\":[\"text\"],\"type\":\"object\"}"@,
{
    reveal_strlit("{\"k\":{\"default\":5,\"type\":\"integer\"},\"text\":{\"type\":\"string\"}}");
    reveal_strlit("k");
    reveal_strlit("default");
    reveal_strlit("type");
    reveal_strlit("integer");
    reveal_strlit("text");
    reveal_strlit("string");
    lemma_plain_quoted("k"@);
    lemma_plain_quoted("default"@);
    lemma_plain_quoted("type"@);
    lemma_plain_quoted("integer"@);
    lemma_plain_quoted("text"@);
    lemma_plain_quoted("string"@);
    let five = decimal(5);
    assert(five =~= seq!['5']);
    let k = object_text(seq![("default"@, five), ("type"@, json_quoted("integer"@))]);
    lemma_two_members("default"@, five, "type"@, json_quoted("integer"@));
    let t = type_text("string"@);
    lemma_one_member("type"@, json_quoted("string"@));
    let properties = object_text(seq![("k"@, k), ("text"@, t)]);
    lemma_two_members("k"@, k, "text"@, t);
    assert(properties
        =~= "{\"k\":{\"default\":5,\"type\":\"integer\"},\"text\":{\"type\":\"string\"}}"@);
    lemma_schema_reads(properties);
}

} // verus!
