//! JSON-RPC, one message a line: requests, responses, and what each request
//! is answered.

use crate::json;
use crate::json::{parse_json, Json, JsonV};
use crate::records;
use crate::text;
use crate::text::{decimal_int_text, same_text};
use vstd::prelude::*;

verus! {

/// A string as a document.
pub(crate) fn str_json(s: &str) -> (res: Json)
    ensures
        res@ == JsonV::Str(s@),
{
    Json::Str(s.to_owned())
}

/// An integer as a document.
pub(crate) fn int_json(i: i64) -> (res: Json)
    ensures
        res@ == JsonV::Num(text::decimal_int(i as int)),
{
    Json::Num(decimal_int_text(i))
}

/// An object with one member.
pub(crate) fn object1(k: &str, v: Json) -> (res: Json)
    ensures
        res@ == JsonV::Obj(seq![(k@, v@)]),
{
    let fields: Vec<(String, Json)> = vec![(k.to_owned(), v)];
    let res = Json::Obj(fields);
    proof {
        json::lemma_json_view(res);
        assert(json::fields_view(fields@) =~= seq![(k@, v@)]);
    }
    res
}

/// An object with two members.
pub(crate) fn object2(k1: &str, v1: Json, k2: &str, v2: Json) -> (res: Json)
    ensures
        res@ == JsonV::Obj(seq![(k1@, v1@), (k2@, v2@)]),
{
    let fields: Vec<(String, Json)> = vec![(k1.to_owned(), v1), (k2.to_owned(), v2)];
    let res = Json::Obj(fields);
    proof {
        json::lemma_json_view(res);
        assert(json::fields_view(fields@) =~= seq![(k1@, v1@), (k2@, v2@)]);
    }
    res
}

/// An object with three members.
pub(crate) fn object3(k1: &str, v1: Json, k2: &str, v2: Json, k3: &str, v3: Json) -> (res: Json)
    ensures
        res@ == JsonV::Obj(seq![(k1@, v1@), (k2@, v2@), (k3@, v3@)]),
{
    let fields: Vec<(String, Json)> = vec![
        (k1.to_owned(), v1),
        (k2.to_owned(), v2),
        (k3.to_owned(), v3),
    ];
    let res = Json::Obj(fields);
    proof {
        json::lemma_json_view(res);
        assert(json::fields_view(fields@) =~= seq![(k1@, v1@), (k2@, v2@), (k3@, v3@)]);
    }
    res
}

/// An empty object.
pub(crate) fn object0() -> (res: Json)
    ensures
        res@ == JsonV::Obj(Seq::empty()),
{
    let fields: Vec<(String, Json)> = Vec::new();
    let res = Json::Obj(fields);
    proof {
        json::lemma_json_view(res);
        assert(json::fields_view(fields@) =~= Seq::empty());
    }
    res
}

/// A list with one element.
pub(crate) fn list1(v: Json) -> (res: Json)
    ensures
        res@ == JsonV::Arr(seq![v@]),
{
    let items: Vec<Json> = vec![v];
    let res = Json::Arr(items);
    proof {
        json::lemma_json_view(res);
        assert(json::items_view(items@) =~= seq![v@]);
    }
    res
}

/// The member named `k`; null where there is none.
pub open spec fn member(v: JsonV, k: Seq<char>) -> JsonV {
    match v {
        JsonV::Obj(o) => match json::field(o, k) {
            Some(x) => x,
            None => JsonV::Null,
        },
        _ => JsonV::Null,
    }
}

/// The member named `k`, copied; null where there is none.
pub(crate) fn member_of(v: &Json, k: &str) -> (res: Json)
    ensures
        res@ == member(v@, k@),
{
    match v.get(k) {
        Some(x) => x.copy(),
        None => Json::Null,
    }
}

/// A request; one without an id is a notification.
pub struct Request {
    pub id: Option<Json>,
    pub method: String,
    pub params: Json,
}

/// The mathematical form of a [`Request`].
pub struct RequestV {
    pub id: Option<JsonV>,
    pub method: Seq<char>,
    pub params: JsonV,
}

impl View for Request {
    type V = RequestV;

    open spec fn view(&self) -> RequestV {
        RequestV { id: id_view(self.id), method: self.method@, params: self.params@ }
    }
}

pub open spec fn id_view(id: Option<Json>) -> Option<JsonV> {
    match id {
        Some(j) => Some(j@),
        None => None,
    }
}

/// A response.
pub struct Response(pub Json);

impl View for Response {
    type V = JsonV;

    open spec fn view(&self) -> JsonV {
        self.0@
    }
}

pub open spec fn id_or_null(id: Option<JsonV>) -> JsonV {
    match id {
        Some(v) => v,
        None => JsonV::Null,
    }
}

pub open spec fn result_response(id: Option<JsonV>, r: JsonV) -> JsonV {
    JsonV::Obj(seq![("id"@, id_or_null(id)), ("jsonrpc"@, JsonV::Str("2.0"@)), ("result"@, r)])
}

pub open spec fn error_response(id: Option<JsonV>, code: int, msg: Seq<char>) -> JsonV {
    JsonV::Obj(
        seq![
            (
                "error"@,
                JsonV::Obj(
                    seq![
                        ("code"@, JsonV::Num(text::decimal_int(code))),
                        ("message"@, JsonV::Str(msg)),
                    ],
                ),
            ),
            ("id"@, id_or_null(id)),
            ("jsonrpc"@, JsonV::Str("2.0"@)),
        ],
    )
}

fn id_copy(id: &Option<Json>) -> (res: Json)
    ensures
        res@ == id_or_null(id_view(*id)),
{
    match id {
        Some(j) => j.copy(),
        None => Json::Null,
    }
}

impl Response {
    /// The response that carries a result.
    pub fn result(id: &Option<Json>, r: Json) -> (res: Response)
        ensures
            res@ == result_response(id_view(*id), r@),
    {
        Response(object3("id", id_copy(id), "jsonrpc", str_json("2.0"), "result", r))
    }

    /// The response that carries an error.
    pub fn error(id: &Option<Json>, code: i64, msg: &str) -> (res: Response)
        ensures
            res@ == error_response(id_view(*id), code as int, msg@),
    {
        let e = object2("code", int_json(code), "message", str_json(msg));
        Response(object3("error", e, "id", id_copy(id), "jsonrpc", str_json("2.0")))
    }

    /// The response as one line.
    pub fn to_line(&self) -> (res: String)
        ensures
            res@ == json::json_text(self@),
    {
        self.0.text()
    }
}

/// The request of a document, or the response that refuses it.
pub open spec fn request_of(v: JsonV) -> Result<RequestV, JsonV> {
    match member(v, "method"@) {
        JsonV::Str(method) => Ok(
            RequestV {
                id: match v {
                    JsonV::Obj(o) => json::field(o, "id"@),
                    _ => None,
                },
                method,
                params: member(v, "params"@),
            },
        ),
        _ => Err(error_response(None, -32600, "missing method"@)),
    }
}

/// The request of a line, or the response that refuses it.
pub open spec fn parsed_request(line: Seq<char>) -> Result<RequestV, JsonV> {
    match json::json_parse(line) {
        Ok(v) => request_of(v),
        Err(_) => Err(error_response(None, -32700, "parse error"@)),
    }
}

/// Reads a request from a document.
pub fn read_request(v: &Json) -> (res: Result<Request, Response>)
    ensures
        match res {
            Ok(r) => request_of(v@) == Ok::<RequestV, JsonV>(r@),
            Err(e) => request_of(v@) == Err::<RequestV, JsonV>(e@),
        },
{
    let none: Option<Json> = None;
    match member_of(v, "method") {
        Json::Str(method) => {
            let id = match v.get("id") {
                Some(x) => Some(x.copy()),
                None => None,
            };
            Ok(Request { id, method, params: member_of(v, "params") })
        },
        _ => Err(Response::error(&none, -32600, "missing method")),
    }
}

/// Reads one line as a request. Where that fails, the response is ready to be
/// sent.
pub fn parse(line: &str) -> (res: Result<Request, Response>)
    ensures
        match res {
            Ok(r) => parsed_request(line@) == Ok::<RequestV, JsonV>(r@),
            Err(e) => parsed_request(line@) == Err::<RequestV, JsonV>(e@),
        },
{
    let none: Option<Json> = None;
    match parse_json(line) {
        Ok(v) => read_request(&v),
        Err(_) => Err(Response::error(&none, -32700, "parse error")),
    }
}

/// The version of the protocol that is spoken.
pub const PROTOCOL_VERSION: &'static str = "2024-11-05";

pub open spec fn property(kind: Seq<char>, description: Seq<char>) -> JsonV {
    JsonV::Obj(seq![("description"@, JsonV::Str(description)), ("type"@, JsonV::Str(kind))])
}

/// The description of the recall tool.
pub open spec fn tool_description() -> JsonV {
    JsonV::Obj(
        seq![
            (
                "description"@,
                JsonV::Str(
                    "Recall project files relevant to a query, ranked by learned usefulness. Memory adapts: files you actually open after a recall grow more salient."@,
                ),
            ),
            (
                "inputSchema"@,
                JsonV::Obj(
                    seq![
                        (
                            "properties"@,
                            JsonV::Obj(
                                seq![
                                    (
                                        "depth"@,
                                        property("integer"@, "hops to spread (default 2)"@),
                                    ),
                                    ("k"@, property("integer"@, "max results (default 10)"@)),
                                    ("query"@, property("string"@, "what you're looking for"@)),
                                ],
                            ),
                        ),
                        ("required"@, JsonV::Arr(seq![JsonV::Str("query"@)])),
                        ("type"@, JsonV::Str("object"@)),
                    ],
                ),
            ),
            ("name"@, JsonV::Str("psyrag_recall"@)),
        ],
    )
}

fn property_json(kind: &str, description: &str) -> (res: Json)
    ensures
        res@ == property(kind@, description@),
{
    object2("description", str_json(description), "type", str_json(kind))
}

fn tool_schema() -> (res: Json)
    ensures
        res@ == tool_description(),
{
    let properties = object3(
        "depth",
        property_json("integer", "hops to spread (default 2)"),
        "k",
        property_json("integer", "max results (default 10)"),
        "query",
        property_json("string", "what you're looking for"),
    );
    let schema = object3(
        "properties",
        properties,
        "required",
        list1(str_json("query")),
        "type",
        str_json("object"),
    );
    object3(
        "description",
        str_json(
            "Recall project files relevant to a query, ranked by learned usefulness. Memory adapts: files you actually open after a recall grow more salient.",
        ),
        "inputSchema",
        schema,
        "name",
        str_json("psyrag_recall"),
    )
}

/// The number that a document is, where it is a whole number of 64 bits
/// without a sign.
pub open spec fn whole_number(v: JsonV) -> Option<u64> {
    match v {
        JsonV::Num(s) => match text::parse_decimal(s) {
            Some(n) => if n <= u64::MAX {
                Some(n as u64)
            } else {
                None
            },
            None => None,
        },
        _ => None,
    }
}

pub(crate) fn whole_of(v: &Json) -> (res: Option<u64>)
    ensures
        res == whole_number(v@),
{
    match v {
        Json::Num(s) => {
            let c = text::chars_of(s.as_str());
            assert(c@.skip(0) =~= s@);
            text::read_decimal(&c, 0, u64::MAX)
        },
        _ => None,
    }
}

/// What is to be done about a request.
pub enum Answer {
    Reply(Response),
    /// Nothing is sent back.
    Silence,
    /// The recall that the reply is to report.
    Recall { query: String, k: u64, depth: u32 },
}

/// The mathematical form of an [`Answer`].
pub enum AnswerV {
    Reply(JsonV),
    Silence,
    Recall { query: Seq<char>, k: u64, depth: u32 },
}

impl View for Answer {
    type V = AnswerV;

    open spec fn view(&self) -> AnswerV {
        match *self {
            Answer::Reply(r) => AnswerV::Reply(r@),
            Answer::Silence => AnswerV::Silence,
            Answer::Recall { query, k, depth } => AnswerV::Recall { query: query@, k, depth },
        }
    }
}

/// What a server says of itself.
pub open spec fn greeting(version: Seq<char>) -> JsonV {
    JsonV::Obj(
        seq![
            ("capabilities"@, JsonV::Obj(seq![("tools"@, JsonV::Obj(Seq::empty()))])),
            ("protocolVersion"@, JsonV::Str(PROTOCOL_VERSION@)),
            (
                "serverInfo"@,
                JsonV::Obj(
                    seq![("name"@, JsonV::Str("psyrag"@)), ("version"@, JsonV::Str(version))],
                ),
            ),
        ],
    )
}

pub open spec fn text_member(v: JsonV, k: Seq<char>) -> Seq<char> {
    match member(v, k) {
        JsonV::Str(s) => s,
        _ => ""@,
    }
}

pub open spec fn number_or(v: JsonV, default: u64) -> u64 {
    match whole_number(v) {
        Some(n) => n,
        None => default,
    }
}

/// What a call of a tool is answered.
pub open spec fn called(id: Option<JsonV>, params: JsonV) -> AnswerV {
    let args = member(params, "arguments"@);
    let q = text_member(args, "query"@);
    if member(params, "name"@) != JsonV::Str("psyrag_recall"@) {
        AnswerV::Reply(
            error_response(
                id,
                -32602,
                "unknown tool "@ + json::json_text(member(params, "name"@)),
            ),
        )
    } else if q.len() == 0 {
        AnswerV::Reply(error_response(id, -32602, "query is required"@))
    } else {
        AnswerV::Recall {
            query: q,
            k: number_or(member(args, "k"@), 10),
            depth: number_or(member(args, "depth"@), 2) as u32,
        }
    }
}

/// What a request is answered.
pub open spec fn answered(r: RequestV, version: Seq<char>) -> AnswerV {
    if r.method == "initialize"@ {
        AnswerV::Reply(result_response(r.id, greeting(version)))
    } else if r.method == "notifications/initialized"@ {
        AnswerV::Silence
    } else if r.method == "ping"@ {
        AnswerV::Reply(result_response(r.id, JsonV::Obj(Seq::empty())))
    } else if r.method == "tools/list"@ {
        AnswerV::Reply(
            result_response(
                r.id,
                JsonV::Obj(seq![("tools"@, JsonV::Arr(seq![tool_description()]))]),
            ),
        )
    } else if r.method == "tools/call"@ {
        called(r.id, r.params)
    } else if r.id is Some {
        AnswerV::Reply(error_response(r.id, -32601, "method not found"@))
    } else {
        AnswerV::Silence
    }
}

fn number_of_json(v: &Json, default: u64) -> (res: u64)
    ensures
        res == number_or(v@, default),
{
    match whole_of(v) {
        Some(n) => n,
        None => default,
    }
}

fn call_tool(req: &Request) -> (res: Answer)
    ensures
        res@ == called(req@.id, req@.params),
{
    let args = member_of(&req.params, "arguments");
    let name = member_of(&req.params, "name");
    let known = match &name {
        Json::Str(s) => same_text(s.as_str(), "psyrag_recall"),
        _ => false,
    };
    if !known {
        let mut msg = String::new();
        msg.append("unknown tool ");
        msg.append(name.text().as_str());
        assert(msg@ =~= "unknown tool "@ + json::json_text(name@));
        return Answer::Reply(Response::error(&req.id, -32602, msg.as_str()));
    }
    let q = match member_of(&args, "query") {
        Json::Str(s) => s,
        _ => "".to_owned(),
    };
    if q.as_str().is_empty() {
        return Answer::Reply(Response::error(&req.id, -32602, "query is required"));
    }
    let k: u64 = number_of_json(&member_of(&args, "k"), 10);
    let depth: u64 = number_of_json(&member_of(&args, "depth"), 2);
    Answer::Recall { query: q, k, depth: depth as u32 }
}

/// What a request is answered by a server of this version.
pub fn dispatch(req: &Request, version: &str) -> (res: Answer)
    ensures
        res@ == answered(req@, version@),
{
    let method = req.method.as_str();
    if same_text(method, "initialize") {
        let capabilities = object1("tools", object0());
        let info = object2("name", str_json("psyrag"), "version", str_json(version));
        let r = object3(
            "capabilities",
            capabilities,
            "protocolVersion",
            str_json(PROTOCOL_VERSION),
            "serverInfo",
            info,
        );
        Answer::Reply(Response::result(&req.id, r))
    } else if same_text(method, "notifications/initialized") {
        Answer::Silence
    } else if same_text(method, "ping") {
        Answer::Reply(Response::result(&req.id, object0()))
    } else if same_text(method, "tools/list") {
        let r = object1("tools", list1(tool_schema()));
        Answer::Reply(Response::result(&req.id, r))
    } else if same_text(method, "tools/call") {
        call_tool(req)
    } else if req.id.is_some() {
        Answer::Reply(Response::error(&req.id, -32601, "method not found"))
    } else {
        Answer::Silence
    }
}

/// The reply that reports a recall.
pub open spec fn recall_report(id: Option<JsonV>, answer: Seq<char>) -> JsonV {
    result_response(
        id,
        JsonV::Obj(
            seq![
                (
                    "content"@,
                    JsonV::Arr(
                        seq![
                            JsonV::Obj(
                                seq![
                                    ("text"@, JsonV::Str(answer)),
                                    ("type"@, JsonV::Str("text"@)),
                                ],
                            ),
                        ],
                    ),
                ),
            ],
        ),
    )
}

/// The reply that reports a recall.
pub fn recall_reply(id: &Option<Json>, answer: &str) -> (res: Response)
    ensures
        res@ == recall_report(id_view(*id), answer@),
{
    let part = object2("text", str_json(answer), "type", str_json("text"));
    Response::result(id, object1("content", list1(part)))
}

/// A request is answered unless it is a notification that asks for nothing.
pub proof fn requests_are_answered(r: RequestV, version: Seq<char>)
    requires
        r.id is Some,
        r.method != "notifications/initialized"@,
    ensures
        answered(r, version) !is Silence,
{
}

/// What happened in the editor.
pub enum Event {
    /// A file was read or edited.
    Used { path: String },
    /// The context is about to be compacted.
    Compact,
}

/// The mathematical form of an [`Event`].
pub enum EventV {
    Used { path: Seq<char> },
    Compact,
}

impl View for Event {
    type V = EventV;

    open spec fn view(&self) -> EventV {
        match *self {
            Event::Used { path } => EventV::Used { path: path@ },
            Event::Compact => EventV::Compact,
        }
    }
}

pub open spec fn event_json(e: EventV) -> JsonV {
    match e {
        EventV::Used { path } => JsonV::Obj(
            seq![("kind"@, JsonV::Str("used"@)), ("path"@, JsonV::Str(path))],
        ),
        EventV::Compact => JsonV::Obj(seq![("kind"@, JsonV::Str("compact"@))]),
    }
}

/// The event that a document stands for: an object, or the parts in order.
pub open spec fn event_of(v: JsonV) -> Option<EventV> {
    match records::text_part(records::part_of(v, "kind"@, 0)) {
        Some(kind) => if kind == "used"@ && records::is_record(v, 2) {
            match records::text_part(records::part_of(v, "path"@, 1)) {
                Some(path) => Some(EventV::Used { path }),
                None => None,
            }
        } else if kind == "compact"@ && records::is_record(v, 1) {
            Some(EventV::Compact)
        } else {
            None
        },
        None => None,
    }
}

/// An event read from the document that it is written as is the same event,
/// also where the document went through text.
pub proof fn event_survives_encoding(e: EventV)
    ensures
        event_of(event_json(e)) == Some(e),
        event_of(json::json_sorted(event_json(e))) == Some(e),
        json::json_exact(event_json(e), json::JSON_DEPTH as nat),
{
    reveal_with_fuel(json::json_exact, 2);
    json::lemma_field_sorted(event_json(e)->Obj_0, "kind"@);
    json::lemma_field_sorted(event_json(e)->Obj_0, "path"@);
    reveal_with_fuel(json::field, 3);
    reveal_strlit("kind");
    reveal_strlit("path");
    reveal_strlit("used");
    reveal_strlit("compact");
    assert("kind"@[0] != "path"@[0]);
    assert("used"@[0] != "compact"@[0]);
    match e {
        EventV::Used { path } => {
            let o = event_json(e)->Obj_0;
            assert(o.drop_last() =~= seq![("kind"@, JsonV::Str("used"@))]);
            assert(o.drop_last().drop_last() =~= Seq::empty());
        },
        EventV::Compact => {
            let o = event_json(e)->Obj_0;
            assert(o.drop_last() =~= Seq::empty());
        },
    }
}

/// An event as one line of text, without the line feed.
pub fn event_line(e: &Event) -> (res: String)
    ensures
        res@ == json::json_text(event_json(e@)),
{
    match e {
        Event::Used { path } => object2(
            "kind",
            str_json("used"),
            "path",
            str_json(path.as_str()),
        ).text(),
        Event::Compact => object1("kind", str_json("compact")).text(),
    }
}

/// The event that a document stands for.
pub fn read_event(v: &Json) -> (res: Option<Event>)
    ensures
        match res {
            Some(e) => event_of(v@) == Some(e@),
            None => event_of(v@) is None,
        },
{
    match records::text_of_part(v.part("kind", 0)) {
        Some(kind) => {
            if same_text(kind.as_str(), "used") && v.record(2) {
                match records::text_of_part(v.part("path", 1)) {
                    Some(path) => Some(Event::Used { path }),
                    None => None,
                }
            } else if same_text(kind.as_str(), "compact") && v.record(1) {
                Some(Event::Compact)
            } else {
                None
            }
        },
        None => None,
    }
}

/// The event of a line; nothing where the line is no event. A line that was
/// written for an event reads as that event.
pub fn parse_event(line: &str) -> (res: Option<Event>)
    ensures
        match res {
            Some(e) => json::json_parse(line@) is Ok && event_of(json::json_parse(line@)->Ok_0)
                == Some(e@),
            None => json::json_parse(line@) matches Ok(v) ==> event_of(v) is None,
        },
        forall|e: EventV|
            line@ == json::json_text(#[trigger] event_json(e)) ==> (res matches Some(x) && x@ == e),
{
    proof {
        assert forall|e: EventV| line@ == json::json_text(#[trigger] event_json(e)) implies event_of(
            json::json_sorted(event_json(e)),
        ) == Some(e) && json::json_exact(event_json(e), json::JSON_DEPTH as nat) by {
            event_survives_encoding(e);
        }
    }
    match parse_json(line) {
        Ok(v) => read_event(&v),
        Err(_) => None,
    }
}

/// What a hook reports: its context is about to be compacted, or a file was
/// used.
pub open spec fn hook_event(v: JsonV) -> Option<EventV> {
    let input = member(v, "tool_input"@);
    let path = match member(input, "file_path"@) {
        JsonV::Str(s) => s,
        _ => text_member(input, "path"@),
    };
    if text_member(v, "hook_event_name"@) == "PreCompact"@ {
        Some(EventV::Compact)
    } else if path.len() == 0 {
        None
    } else {
        Some(EventV::Used { path })
    }
}

/// What a hook reports; the path is as the hook gives it.
pub fn read_hook(v: &Json) -> (res: Option<Event>)
    ensures
        match res {
            Some(e) => hook_event(v@) == Some(e@),
            None => hook_event(v@) is None,
        },
{
    let compact = match member_of(v, "hook_event_name") {
        Json::Str(s) => same_text(s.as_str(), "PreCompact"),
        _ => same_text("", "PreCompact"),
    };
    if compact {
        return Some(Event::Compact);
    }
    let input = member_of(v, "tool_input");
    let path = match member_of(&input, "file_path") {
        Json::Str(s) => s,
        _ => match member_of(&input, "path") {
            Json::Str(s) => s,
            _ => "".to_owned(),
        },
    };
    if path.as_str().is_empty() {
        None
    } else {
        Some(Event::Used { path })
    }
}

/// A day in milliseconds.
pub const DAY_MS: i64 = 86_400_000;

/// When the graph slept last, as a file says it; 0 where it says nothing.
pub open spec fn slept_at(content: Option<Seq<char>>) -> int {
    match content {
        Some(s) => match text::parse_signed(text::trimmed(s)) {
            Some(i) => if i64::MIN <= i <= i64::MAX {
                i
            } else {
                0
            },
            None => 0,
        },
        None => 0,
    }
}

/// When the graph slept last, as a file says it.
pub fn read_last_sleep(content: Option<&str>) -> (res: i64)
    ensures
        res == slept_at(crate::graph::str_view(content)),
{
    match content {
        Some(s) => {
            let t = text::trim_text(s);
            match text::read_signed(t.as_str()) {
                Some(i) => i,
                None => 0,
            }
        },
        None => 0,
    }
}

/// What is to be done about sleep.
#[derive(Debug, Clone, Copy, PartialEq, Eq, Structural)]
pub enum Sleep {
    /// The first run: only note the time.
    Mark,
    Wait,
    /// Sleep now, and note the time.
    Now,
}

/// Whether the graph is due for sleep: once a day, and never on the first run,
/// which would wear down what was just seeded.
pub fn sleep_due(last: i64, now: i64) -> (res: Sleep)
    ensures
        res == (if last == 0 {
            Sleep::Mark
        } else if now - last <= DAY_MS {
            Sleep::Wait
        } else {
            Sleep::Now
        }),
{
    if last == 0 {
        Sleep::Mark
    } else if now as i128 - last as i128 <= DAY_MS as i128 {
        Sleep::Wait
    } else {
        Sleep::Now
    }
}

} // verus!
