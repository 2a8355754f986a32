//! The routes of a database: what a request asks for, what it is refused, and
//! what it is answered.

use crate::access::{refuse, Refusal, RefusalV, Scope, ScopeV, Verb};
use crate::cli::EdgeSpec;
use crate::codec;
use crate::codec::int_of_part;
use crate::credit::Spread;
use crate::entity;
use crate::gcp;
use crate::graph;
use crate::json;
use crate::json::{parse_json, Json, JsonV};
use crate::records;
use crate::rpc;
use crate::rpc::{object1, str_json, whole_of};
use crate::text;
use crate::text::{after_prefix, cat2, cat3, cat5, has_prefix, same_text};
use vstd::prelude::*;

verus! {

// ---------------------------------------------------------------------------
// Parts of a request
// ---------------------------------------------------------------------------

/// A request is an object, or an array of its parts, of which the first `min`
/// have to be there.
pub open spec fn is_request(v: JsonV, min: nat, max: nat) -> bool {
    match v {
        JsonV::Obj(_) => true,
        JsonV::Arr(a) => min <= a.len() <= max,
        _ => false,
    }
}

fn request_shape(v: &Json, min: usize, max: usize) -> (res: bool)
    ensures
        res == is_request(v@, min as nat, max as nat),
{
    proof {
        json::lemma_json_view(*v);
    }
    match v {
        Json::Obj(_) => true,
        Json::Arr(a) => min <= a.len() && a.len() <= max,
        _ => false,
    }
}

/// Whether a part is absent or null.
pub open spec fn absent(v: Option<JsonV>) -> bool {
    v is None || v == Some(JsonV::Null)
}

fn is_absent(v: Option<&Json>) -> (res: bool)
    ensures
        res == absent(records::json_opt(v)),
{
    match v {
        None => true,
        Some(Json::Null) => true,
        _ => false,
    }
}

/// An integer of 64 bits that may be absent; `None` where the part is
/// something else.
pub open spec fn opt_int(v: Option<JsonV>) -> Option<Option<i64>> {
    if absent(v) {
        Some(None)
    } else {
        match codec::int_part(v) {
            Some(i) => Some(Some(i)),
            None => None,
        }
    }
}

fn opt_int_of(v: Option<&Json>) -> (res: Option<Option<i64>>)
    ensures
        res == opt_int(records::json_opt(v)),
{
    if is_absent(v) {
        Some(None)
    } else {
        match int_of_part(v) {
            Some(i) => Some(Some(i)),
            None => None,
        }
    }
}

/// A whole number of at most `max` that may be absent.
pub open spec fn opt_whole(v: Option<JsonV>, max: u64) -> Option<Option<u64>> {
    if absent(v) {
        Some(None)
    } else {
        match rpc::whole_number(v->0) {
            Some(n) => if n <= max {
                Some(Some(n))
            } else {
                None
            },
            None => None,
        }
    }
}

fn opt_whole_of(v: Option<&Json>, max: u64) -> (res: Option<Option<u64>>)
    ensures
        res == opt_whole(records::json_opt(v), max),
{
    if is_absent(v) {
        return Some(None);
    }
    match v {
        Some(j) => match whole_of(j) {
            Some(n) => if n <= max {
                Some(Some(n))
            } else {
                None
            },
            None => None,
        },
        None => Some(None),
    }
}

/// A number that may be absent, as its text.
pub open spec fn opt_number(v: Option<JsonV>) -> Option<Option<Seq<char>>> {
    if absent(v) {
        Some(None)
    } else {
        match v->0 {
            JsonV::Num(s) => Some(Some(s)),
            _ => None,
        }
    }
}

fn opt_number_of(v: Option<&Json>) -> (res: Option<Option<String>>)
    ensures
        match res {
            Some(s) => opt_number(records::json_opt(v)) == Some(graph::label_view(s)),
            None => opt_number(records::json_opt(v)) is None,
        },
{
    match v {
        None => Some(None),
        Some(Json::Null) => Some(None),
        Some(Json::Num(s)) => Some(Some(s.clone())),
        _ => None,
    }
}

/// A truth value; `default` where it is absent.
pub open spec fn bool_or(v: Option<JsonV>, default: bool) -> Option<bool> {
    match v {
        None => Some(default),
        Some(JsonV::Bool(b)) => Some(b),
        _ => None,
    }
}

fn bool_or_of(v: Option<&Json>, default: bool) -> (res: Option<bool>)
    ensures
        res == bool_or(records::json_opt(v), default),
{
    match v {
        None => Some(default),
        Some(Json::Bool(b)) => Some(*b),
        _ => None,
    }
}

/// A whole number; `default` where it is absent.
pub open spec fn whole_or(v: Option<JsonV>, default: u64) -> Option<u64> {
    match v {
        None => Some(default),
        Some(j) => rpc::whole_number(j),
    }
}

fn whole_or_of(v: Option<&Json>, default: u64) -> (res: Option<u64>)
    ensures
        res == whole_or(records::json_opt(v), default),
{
    match v {
        None => Some(default),
        Some(j) => whole_of(j),
    }
}

pub open spec fn is_text() -> spec_fn(JsonV) -> bool {
    |v: JsonV| v is Str
}

pub open spec fn text_in() -> spec_fn(JsonV) -> Seq<char> {
    |v: JsonV| v->Str_0
}

/// A list of texts.
pub open spec fn texts(v: Option<JsonV>) -> Option<Seq<Seq<char>>> {
    match v {
        Some(JsonV::Arr(a)) => if a.all(is_text()) {
            Some(a.map_values(text_in()))
        } else {
            None
        },
        _ => None,
    }
}

fn texts_of(v: Option<&Json>) -> (res: Option<Vec<String>>)
    ensures
        match res {
            Some(l) => texts(records::json_opt(v)) == Some(text::views(l@)),
            None => texts(records::json_opt(v)) is None,
        },
{
    match v {
        Some(j) => {
            proof {
                json::lemma_json_view(*j);
            }
            match j {
                Json::Arr(a) => {
                    let ghost all = json::items_view(a@);
                    let mut out: Vec<String> = Vec::new();
                    let mut i: usize = 0;
                    while i < a.len()
                        invariant
                            i <= a@.len(),
                            all == json::items_view(a@),
                            v == Some(j),
                            j@ == JsonV::Arr(all),
                            out@.len() == i,
                            forall|k: int| 0 <= k < i ==> is_text()(#[trigger] all[k]),
                            forall|k: int|
                                0 <= k < i ==> (#[trigger] out@[k])@ == text_in()(all[k]),
                        decreases a@.len() - i,
                    {
                        assert(all[i as int] == a@[i as int]@);
                        match &a[i] {
                            Json::Str(s) => {
                                out.push(s.clone());
                            },
                            _ => {
                                assert(!is_text()(all[i as int]));
                                return None;
                            },
                        }
                        i += 1;
                    }
                    assert(text::views(out@) =~= all.map_values(text_in()));
                    Some(out)
                },
                _ => None,
            }
        },
        None => None,
    }
}

/// A list of texts that may be absent.
pub open spec fn opt_texts(v: Option<JsonV>) -> Option<Option<Seq<Seq<char>>>> {
    if absent(v) {
        Some(None)
    } else {
        match texts(v) {
            Some(l) => Some(Some(l)),
            None => None,
        }
    }
}

pub open spec fn list_view(l: Option<Vec<String>>) -> Option<Seq<Seq<char>>> {
    match l {
        Some(v) => Some(text::views(v@)),
        None => None,
    }
}

fn opt_texts_of(v: Option<&Json>) -> (res: Option<Option<Vec<String>>>)
    ensures
        match res {
            Some(l) => opt_texts(records::json_opt(v)) == Some(list_view(l)),
            None => opt_texts(records::json_opt(v)) is None,
        },
{
    if is_absent(v) {
        Some(None)
    } else {
        match texts_of(v) {
            Some(l) => Some(Some(l)),
            None => None,
        }
    }
}

/// The message for a body that is JSON and no request, in words of its own: the
/// words of `serde` are those of types that derive its traits.
pub open spec fn bad_request() -> RefusalV {
    RefusalV { code: 400, message: "bad body: not a valid request"@ }
}

fn bad_body() -> (res: Refusal)
    ensures
        res@ == bad_request(),
{
    refuse(400, "bad body: not a valid request")
}

/// The document of a body, or why there is none. Of a member that is repeated
/// the last one counts, and a member that nothing asks for is read as well.
pub open spec fn body_json(body: Seq<char>) -> Result<JsonV, RefusalV> {
    match json::json_parse(body) {
        Ok(v) => Ok(v),
        Err(e) => Err(RefusalV { code: 400, message: "bad body: "@ + e }),
    }
}

fn body_json_of(body: &str) -> (res: Result<Json, Refusal>)
    ensures
        match res {
            Ok(j) => body_json(body@) == Ok::<JsonV, RefusalV>(j@),
            Err(e) => body_json(body@) == Err::<JsonV, RefusalV>(e@),
        },
{
    match parse_json(body) {
        Ok(j) => Ok(j),
        Err(e) => Err(Refusal { code: 400, message: cat2("bad body: ", e.as_str()) }),
    }
}

// ---------------------------------------------------------------------------
// Reading
// ---------------------------------------------------------------------------

/// A search for nodes; `S` is text, `L` a list of texts.
pub struct MatchReq<L> {
    pub tokens: L,
    pub limit: u64,
    /// Whether names are searched whole, rather than by their tokens.
    pub substring: bool,
}

pub open spec fn match_view(r: MatchReq<Vec<String>>) -> MatchReq<Seq<Seq<char>>> {
    MatchReq { tokens: text::views(r.tokens@), limit: r.limit, substring: r.substring }
}

pub open spec fn match_of(v: JsonV) -> Option<MatchReq<Seq<Seq<char>>>> {
    match (
        is_request(v, 1, 3),
        texts(records::part_of(v, "tokens"@, 0)),
        whole_or(records::part_of(v, "limit"@, 1), 16),
        records::label_part(records::part_of(v, "mode"@, 2)),
    ) {
        (true, Some(tokens), Some(limit), Some(mode)) => Some(
            MatchReq { tokens, limit, substring: mode == Some("substring"@) },
        ),
        _ => None,
    }
}

/// Reads a search.
pub fn read_match(v: &Json) -> (res: Option<MatchReq<Vec<String>>>)
    ensures
        match res {
            Some(r) => match_of(v@) == Some(match_view(r)),
            None => match_of(v@) is None,
        },
{
    if !request_shape(v, 1, 3) {
        return None;
    }
    match (
        texts_of(v.part("tokens", 0)),
        whole_or_of(v.part("limit", 1), 16),
        records::label_of_part(v.part("mode", 2)),
    ) {
        (Some(tokens), Some(limit), Some(mode)) => {
            let substring = match &mode {
                Some(m) => same_text(m.as_str(), "substring"),
                None => false,
            };
            Some(MatchReq { tokens, limit, substring })
        },
        _ => None,
    }
}

/// A retrieval; numbers that may have a fraction are texts.
pub struct RetrieveReq<S, L> {
    pub seeds: L,
    pub depth: Option<u64>,
    pub fan: Option<S>,
    pub top_k: u64,
    pub ts: Option<i64>,
    pub adapt: bool,
    pub trace: bool,
    pub explain: bool,
}

pub type RetrieveV = RetrieveReq<Seq<char>, Seq<Seq<char>>>;

pub open spec fn retrieve_view(r: RetrieveReq<String, Vec<String>>) -> RetrieveV {
    RetrieveReq {
        seeds: text::views(r.seeds@),
        depth: r.depth,
        fan: graph::label_view(r.fan),
        top_k: r.top_k,
        ts: r.ts,
        adapt: r.adapt,
        trace: r.trace,
        explain: r.explain,
    }
}

pub open spec fn retrieve_of(v: JsonV) -> Option<RetrieveV> {
    match (
        is_request(v, 5, 8),
        texts(records::part_of(v, "seeds"@, 0)),
        opt_whole(records::part_of(v, "depth"@, 1), u32::MAX as u64),
        opt_number(records::part_of(v, "fan"@, 2)),
        whole_or(records::part_of(v, "top_k"@, 3), 10),
        opt_int(records::part_of(v, "ts"@, 4)),
        bool_or(records::part_of(v, "adapt"@, 5), true),
        bool_or(records::part_of(v, "trace"@, 6), false),
        bool_or(records::part_of(v, "explain"@, 7), false),
    ) {
        (
            true,
            Some(seeds),
            Some(depth),
            Some(fan),
            Some(top_k),
            Some(ts),
            Some(adapt),
            Some(trace),
            Some(explain),
        ) => Some(RetrieveReq { seeds, depth, fan, top_k, ts, adapt, trace, explain }),
        _ => None,
    }
}

/// Reads a retrieval.
pub fn read_retrieve(v: &Json) -> (res: Option<RetrieveReq<String, Vec<String>>>)
    ensures
        match res {
            Some(r) => retrieve_of(v@) == Some(retrieve_view(r)),
            None => retrieve_of(v@) is None,
        },
{
    if !request_shape(v, 5, 8) {
        return None;
    }
    match (
        texts_of(v.part("seeds", 0)),
        opt_whole_of(v.part("depth", 1), u32::MAX as u64),
        opt_number_of(v.part("fan", 2)),
        whole_or_of(v.part("top_k", 3), 10),
        opt_int_of(v.part("ts", 4)),
        bool_or_of(v.part("adapt", 5), true),
        bool_or_of(v.part("trace", 6), false),
        bool_or_of(v.part("explain", 7), false),
    ) {
        (
            Some(seeds),
            Some(depth),
            Some(fan),
            Some(top_k),
            Some(ts),
            Some(adapt),
            Some(trace),
            Some(explain),
        ) => Some(RetrieveReq { seeds, depth, fan, top_k, ts, adapt, trace, explain }),
        _ => None,
    }
}

/// What a route of a database asks for. `R` is a refusal, `M` a search, `Q` a
/// retrieval.
pub enum DbPlan<R, M, Q> {
    Refused(R),
    Ui,
    Graph,
    Traces,
    Trace(Option<u64>),
    Health,
    Stats,
    Match(M),
    Retrieve(Q),
    /// A change of the database.
    Write,
}

pub type DbPlanV = DbPlan<RefusalV, MatchReq<Seq<Seq<char>>>, RetrieveV>;

pub type DbPlanX = DbPlan<Refusal, MatchReq<Vec<String>>, RetrieveReq<String, Vec<String>>>;

pub open spec fn plan_view(p: DbPlanX) -> DbPlanV {
    match p {
        DbPlan::Refused(r) => DbPlan::Refused(r@),
        DbPlan::Ui => DbPlan::Ui,
        DbPlan::Graph => DbPlan::Graph,
        DbPlan::Traces => DbPlan::Traces,
        DbPlan::Trace(id) => DbPlan::Trace(id),
        DbPlan::Health => DbPlan::Health,
        DbPlan::Stats => DbPlan::Stats,
        DbPlan::Match(m) => DbPlan::Match(match_view(m)),
        DbPlan::Retrieve(r) => DbPlan::Retrieve(retrieve_view(r)),
        DbPlan::Write => DbPlan::Write,
    }
}

/// A text without a prefix that is repeated.
pub open spec fn without_prefixes(s: Seq<char>, p: Seq<char>) -> Seq<char>
    decreases s.len(),
{
    if p.len() > 0 && p.is_prefix_of(s) {
        without_prefixes(s.skip(p.len() as int), p)
    } else {
        s
    }
}

/// The number of the trace that a route names.
pub open spec fn trace_number(route: Seq<char>) -> Option<u64> {
    match text::parse_unsigned(without_prefixes(route, "/trace/"@)) {
        Some(n) => if n <= u64::MAX {
            Some(n as u64)
        } else {
            None
        },
        None => None,
    }
}

fn prefixes_dropped(s: &str, p: &str) -> (res: String)
    ensures
        res@ == without_prefixes(s@, p@),
{
    let mut cur = s.to_owned();
    if p.is_empty() {
        return cur;
    }
    loop
        invariant
            p@.len() > 0,
            without_prefixes(cur@, p@) == without_prefixes(s@, p@),
        ensures
            cur@ == without_prefixes(s@, p@),
        decreases cur@.len(),
    {
        match after_prefix(cur.as_str(), p) {
            Some(rest) => {
                cur = rest;
            },
            None => {
                break;
            },
        }
    }
    cur
}

/// What a document of a search is taken for.
pub open spec fn match_plan(v: JsonV) -> DbPlanV {
    match match_of(v) {
        Some(r) => DbPlan::Match(r),
        None => DbPlan::Refused(bad_request()),
    }
}

/// What a document of a retrieval is taken for. A token that only reads may
/// not adapt the graph nor store a trace.
pub open spec fn retrieve_plan(scope: ScopeV, v: JsonV) -> DbPlanV {
    match retrieve_of(v) {
        Some(r) => if scope is Read && (r.adapt || r.trace) {
            DbPlan::Refused(
                RefusalV {
                    code: 403,
                    message: "read scope: retrieval must set adapt=false and trace=false (both mutate state)"@,
                },
            )
        } else {
            DbPlan::Retrieve(r)
        },
        None => DbPlan::Refused(bad_request()),
    }
}

/// What a request to a database asks for.
pub open spec fn planned_db(scope: ScopeV, verb: Verb, route: Seq<char>, body: Seq<char>) -> DbPlanV {
    if verb == Verb::Get && route == "/ui"@ {
        DbPlan::Ui
    } else if verb == Verb::Get && route == "/graph"@ {
        DbPlan::Graph
    } else if verb == Verb::Get && route == "/traces"@ {
        DbPlan::Traces
    } else if verb == Verb::Get && "/trace/"@.is_prefix_of(route) {
        DbPlan::Trace(trace_number(route))
    } else if verb == Verb::Get && route == "/health"@ {
        DbPlan::Health
    } else if verb == Verb::Get && route == "/stats"@ {
        DbPlan::Stats
    } else if verb == Verb::Post && route == "/match"@ {
        match body_json(body) {
            Ok(v) => match_plan(v),
            Err(e) => DbPlan::Refused(e),
        }
    } else if verb == Verb::Post && route == "/retrieve"@ {
        match body_json(body) {
            Ok(v) => retrieve_plan(scope, v),
            Err(e) => DbPlan::Refused(e),
        }
    } else if scope is Read {
        DbPlan::Refused(RefusalV { code: 403, message: "write scope required"@ })
    } else {
        DbPlan::Write
    }
}

/// What a document of a search is taken for.
pub fn plan_match(v: &Json) -> (res: DbPlanX)
    ensures
        plan_view(res) == match_plan(v@),
{
    match read_match(v) {
        Some(r) => DbPlan::Match(r),
        None => DbPlan::Refused(bad_body()),
    }
}

/// What a document of a retrieval is taken for.
pub fn plan_retrieve(scope: &Scope, v: &Json) -> (res: DbPlanX)
    ensures
        plan_view(res) == retrieve_plan(scope@, v@),
{
    match read_retrieve(v) {
        Some(r) => if !scope.can_write() && (r.adapt || r.trace) {
            DbPlan::Refused(
                refuse(
                    403,
                    "read scope: retrieval must set adapt=false and trace=false (both mutate state)",
                ),
            )
        } else {
            DbPlan::Retrieve(r)
        },
        None => DbPlan::Refused(bad_body()),
    }
}

/// What a request to a database asks for.
pub fn plan_db(scope: &Scope, verb: Verb, route: &str, body: &str) -> (res: DbPlanX)
    ensures
        plan_view(res) == planned_db(scope@, verb, route@, body@),
{
    if verb == Verb::Get {
        if same_text(route, "/ui") {
            return DbPlan::Ui;
        }
        if same_text(route, "/graph") {
            return DbPlan::Graph;
        }
        if same_text(route, "/traces") {
            return DbPlan::Traces;
        }
        if has_prefix(route, "/trace/") {
            let rest = prefixes_dropped(route, "/trace/");
            return DbPlan::Trace(text::read_unsigned(rest.as_str(), u64::MAX));
        }
        if same_text(route, "/health") {
            return DbPlan::Health;
        }
        if same_text(route, "/stats") {
            return DbPlan::Stats;
        }
    }
    if verb == Verb::Post {
        if same_text(route, "/match") {
            return match body_json_of(body) {
                Ok(v) => plan_match(&v),
                Err(e) => DbPlan::Refused(e),
            };
        }
        if same_text(route, "/retrieve") {
            return match body_json_of(body) {
                Ok(v) => plan_retrieve(scope, &v),
                Err(e) => DbPlan::Refused(e),
            };
        }
    }
    if !scope.can_write() {
        return DbPlan::Refused(refuse(403, "write scope required"));
    }
    DbPlan::Write
}

/// A token that only reads changes nothing: no write, and no retrieval that
/// adapts the graph or stores a trace.
pub proof fn read_token_changes_nothing(verb: Verb, route: Seq<char>, body: Seq<char>)
    ensures
        match planned_db(ScopeV::Read, verb, route, body) {
            DbPlan::Write => false,
            DbPlan::Retrieve(r) => !r.adapt && !r.trace,
            _ => true,
        },
{
}

// ---------------------------------------------------------------------------
// Writing
// ---------------------------------------------------------------------------

/// A batch of facts.
pub struct IngestReq<S> {
    pub json: S,
    pub reconcile: bool,
    pub cai: bool,
    pub ts: Option<i64>,
    pub origin: Option<S>,
}

pub open spec fn ingest_view(r: IngestReq<String>) -> IngestReq<Seq<char>> {
    IngestReq {
        json: r.json@,
        reconcile: r.reconcile,
        cai: r.cai,
        ts: r.ts,
        origin: graph::label_view(r.origin),
    }
}

pub open spec fn ingest_of(v: JsonV) -> Option<IngestReq<Seq<char>>> {
    match (
        is_request(v, 4, 5),
        records::text_part(records::part_of(v, "json"@, 0)),
        bool_or(records::part_of(v, "reconcile"@, 1), false),
        bool_or(records::part_of(v, "cai"@, 2), false),
        opt_int(records::part_of(v, "ts"@, 3)),
        records::label_part(records::part_of(v, "origin"@, 4)),
    ) {
        (true, Some(json), Some(reconcile), Some(cai), Some(ts), Some(origin)) => Some(
            IngestReq { json, reconcile, cai, ts, origin },
        ),
        _ => None,
    }
}

/// Reads a batch of facts.
pub fn read_ingest(v: &Json) -> (res: Option<IngestReq<String>>)
    ensures
        match res {
            Some(r) => ingest_of(v@) == Some(ingest_view(r)),
            None => ingest_of(v@) is None,
        },
{
    if !request_shape(v, 4, 5) {
        return None;
    }
    match (
        records::text_of_part(v.part("json", 0)),
        bool_or_of(v.part("reconcile", 1), false),
        bool_or_of(v.part("cai", 2), false),
        opt_int_of(v.part("ts", 3)),
        records::label_of_part(v.part("origin", 4)),
    ) {
        (Some(json), Some(reconcile), Some(cai), Some(ts), Some(origin)) => Some(
            IngestReq { json, reconcile, cai, ts, origin },
        ),
        _ => None,
    }
}

/// An edge by names, and how much it is reinforced.
pub type TouchV = (Seq<char>, Seq<char>, Seq<char>, Seq<char>);

pub open spec fn touch_edge(v: JsonV) -> Option<TouchV> {
    match v {
        JsonV::Arr(a) => if a.len() == 4 {
            match (a[0], a[1], a[2], a[3]) {
                (JsonV::Str(s), JsonV::Str(d), JsonV::Str(k), JsonV::Num(r)) => Some((s, d, k, r)),
                _ => None,
            }
        } else {
            None
        },
        _ => None,
    }
}

pub open spec fn spec_view(e: EdgeSpec) -> TouchV {
    (e.src@, e.dst@, e.kind@, e.r@)
}

fn touch_edge_of(v: &Json) -> (res: Option<EdgeSpec>)
    ensures
        match res {
            Some(e) => touch_edge(v@) == Some(spec_view(e)),
            None => touch_edge(v@) is None,
        },
{
    proof {
        json::lemma_json_view(*v);
    }
    match v {
        Json::Arr(a) => {
            if a.len() != 4 {
                return None;
            }
            let ghost all = json::items_view(a@);
            assert(all[0] == a@[0]@ && all[1] == a@[1]@ && all[2] == a@[2]@ && all[3] == a@[3]@);
            match (&a[0], &a[1], &a[2], &a[3]) {
                (Json::Str(s), Json::Str(d), Json::Str(k), Json::Num(r)) => Some(
                    EdgeSpec { src: s.clone(), dst: d.clone(), kind: k.clone(), r: r.clone() },
                ),
                _ => None,
            }
        },
        _ => None,
    }
}

pub open spec fn is_touch() -> spec_fn(JsonV) -> bool {
    |v: JsonV| touch_edge(v) is Some
}

pub open spec fn touch_in() -> spec_fn(JsonV) -> TouchV {
    |v: JsonV| touch_edge(v)->0
}

pub open spec fn touch_list(v: Option<JsonV>) -> Option<Seq<TouchV>> {
    match v {
        Some(JsonV::Arr(a)) => if a.all(is_touch()) {
            Some(a.map_values(touch_in()))
        } else {
            None
        },
        _ => None,
    }
}

pub open spec fn spec_views(l: Seq<EdgeSpec>) -> Seq<TouchV> {
    l.map_values(|e: EdgeSpec| spec_view(e))
}

fn touch_list_of(v: Option<&Json>) -> (res: Option<Vec<EdgeSpec>>)
    ensures
        match res {
            Some(l) => touch_list(records::json_opt(v)) == Some(spec_views(l@)),
            None => touch_list(records::json_opt(v)) is None,
        },
{
    match v {
        Some(j) => {
            proof {
                json::lemma_json_view(*j);
            }
            match j {
                Json::Arr(a) => {
                    let ghost all = json::items_view(a@);
                    let mut out: Vec<EdgeSpec> = Vec::new();
                    let mut i: usize = 0;
                    while i < a.len()
                        invariant
                            i <= a@.len(),
                            all == json::items_view(a@),
                            v == Some(j),
                            j@ == JsonV::Arr(all),
                            out@.len() == i,
                            forall|k: int| 0 <= k < i ==> is_touch()(#[trigger] all[k]),
                            forall|k: int|
                                0 <= k < i ==> spec_view(#[trigger] out@[k]) == touch_in()(all[k]),
                        decreases a@.len() - i,
                    {
                        assert(all[i as int] == a@[i as int]@);
                        match touch_edge_of(&a[i]) {
                            Some(e) => {
                                out.push(e);
                            },
                            None => {
                                assert(!is_touch()(all[i as int]));
                                return None;
                            },
                        }
                        i += 1;
                    }
                    assert(spec_views(out@) =~= all.map_values(touch_in()));
                    Some(out)
                },
                _ => None,
            }
        },
        None => None,
    }
}

/// A name and a score, as a text.
pub open spec fn scored(v: JsonV) -> Option<(Seq<char>, Seq<char>)> {
    match v {
        JsonV::Arr(a) => if a.len() == 2 {
            match (a[0], a[1]) {
                (JsonV::Str(n), JsonV::Num(s)) => Some((n, s)),
                _ => None,
            }
        } else {
            None
        },
        _ => None,
    }
}

fn scored_of(v: &Json) -> (res: Option<(String, String)>)
    ensures
        match res {
            Some((n, s)) => scored(v@) == Some((n@, s@)),
            None => scored(v@) is None,
        },
{
    proof {
        json::lemma_json_view(*v);
    }
    match v {
        Json::Arr(a) => {
            if a.len() != 2 {
                return None;
            }
            let ghost all = json::items_view(a@);
            assert(all[0] == a@[0]@ && all[1] == a@[1]@);
            match (&a[0], &a[1]) {
                (Json::Str(n), Json::Num(s)) => Some((n.clone(), s.clone())),
                _ => None,
            }
        },
        _ => None,
    }
}

pub open spec fn is_scored() -> spec_fn(JsonV) -> bool {
    |v: JsonV| scored(v) is Some
}

pub open spec fn score_in() -> spec_fn(JsonV) -> (Seq<char>, Seq<char>) {
    |v: JsonV| scored(v)->0
}

/// Names with scores, which may be absent.
pub open spec fn opt_scores(v: Option<JsonV>) -> Option<Option<Seq<(Seq<char>, Seq<char>)>>> {
    if absent(v) {
        Some(None)
    } else {
        match v->0 {
            JsonV::Arr(a) => if a.all(is_scored()) {
                Some(Some(a.map_values(score_in())))
            } else {
                None
            },
            _ => None,
        }
    }
}

pub open spec fn pairs_view(l: Option<Vec<(String, String)>>) -> Option<
    Seq<(Seq<char>, Seq<char>)>,
> {
    match l {
        Some(v) => Some(crate::query::pair_views(v@)),
        None => None,
    }
}

fn opt_scores_of(v: Option<&Json>) -> (res: Option<Option<Vec<(String, String)>>>)
    ensures
        match res {
            Some(l) => opt_scores(records::json_opt(v)) == Some(pairs_view(l)),
            None => opt_scores(records::json_opt(v)) is None,
        },
{
    if is_absent(v) {
        return Some(None);
    }
    match v {
        Some(j) => {
            proof {
                json::lemma_json_view(*j);
            }
            match j {
                Json::Arr(a) => {
                    let ghost all = json::items_view(a@);
                    let mut out: Vec<(String, String)> = Vec::new();
                    let mut i: usize = 0;
                    while i < a.len()
                        invariant
                            i <= a@.len(),
                            all == json::items_view(a@),
                            v == Some(j),
                            j@ == JsonV::Arr(all),
                            out@.len() == i,
                            forall|k: int| 0 <= k < i ==> is_scored()(#[trigger] all[k]),
                            forall|k: int|
                                0 <= k < i ==> ((#[trigger] out@[k]).0@, out@[k].1@) == score_in()(
                                    all[k],
                                ),
                        decreases a@.len() - i,
                    {
                        assert(all[i as int] == a@[i as int]@);
                        match scored_of(&a[i]) {
                            Some(p) => {
                                out.push(p);
                            },
                            None => {
                                assert(!is_scored()(all[i as int]));
                                return None;
                            },
                        }
                        i += 1;
                    }
                    assert(crate::query::pair_views(out@) =~= all.map_values(score_in()));
                    Some(Some(out))
                },
                _ => None,
            }
        },
        None => Some(None),
    }
}

/// How a reward is spread: evenly, or by activation. The variant stands as a
/// text, or as an object whose one member is null.
pub open spec fn spread_name(v: JsonV) -> Option<Seq<char>> {
    match v {
        JsonV::Str(s) => Some(s),
        JsonV::Obj(o) => if o.len() == 1 && o[0].1 == JsonV::Null {
            Some(o[0].0)
        } else {
            None
        },
        _ => None,
    }
}

/// How a reward is spread; absent where nothing is said.
pub open spec fn opt_spread(v: Option<JsonV>) -> Option<Option<Spread>> {
    if absent(v) {
        Some(None)
    } else {
        match spread_name(v->0) {
            Some(s) => if s == "uniform"@ {
                Some(Some(Spread::Uniform))
            } else if s == "by_activation"@ {
                Some(Some(Spread::ByActivation))
            } else {
                None
            },
            None => None,
        }
    }
}

fn spread_name_of(v: &Json) -> (res: Option<String>)
    ensures
        match res {
            Some(s) => spread_name(v@) == Some(s@),
            None => spread_name(v@) is None,
        },
{
    proof {
        json::lemma_json_view(*v);
    }
    match v {
        Json::Str(s) => Some(s.clone()),
        Json::Obj(o) => {
            if o.len() != 1 {
                return None;
            }
            let ghost all = json::fields_view(o@);
            assert(all[0] == (o@[0].0@, o@[0].1@));
            match &o[0].1 {
                Json::Null => Some(o[0].0.clone()),
                _ => None,
            }
        },
        _ => None,
    }
}

fn opt_spread_of(v: Option<&Json>) -> (res: Option<Option<Spread>>)
    ensures
        res == opt_spread(records::json_opt(v)),
{
    if is_absent(v) {
        return Some(None);
    }
    match v {
        Some(j) => match spread_name_of(j) {
            Some(s) => if same_text(s.as_str(), "uniform") {
                Some(Some(Spread::Uniform))
            } else if same_text(s.as_str(), "by_activation") {
                Some(Some(Spread::ByActivation))
            } else {
                None
            },
            None => None,
        },
        None => Some(None),
    }
}

/// Feedback on a retrieval: a stored one, or one that is made again.
pub struct FeedbackReq<S, L, P> {
    pub trace_id: Option<u64>,
    pub seeds: Option<L>,
    pub used: Option<L>,
    pub nodes: Option<P>,
    pub reward: Option<S>,
    pub spread: Option<Spread>,
    pub depth: Option<u64>,
    pub fan: Option<S>,
    pub top_k: u64,
    pub ts: Option<i64>,
}

pub type FeedbackV = FeedbackReq<Seq<char>, Seq<Seq<char>>, Seq<(Seq<char>, Seq<char>)>>;

pub type FeedbackX = FeedbackReq<String, Vec<String>, Vec<(String, String)>>;

pub open spec fn feedback_view(r: FeedbackX) -> FeedbackV {
    FeedbackReq {
        trace_id: r.trace_id,
        seeds: list_view(r.seeds),
        used: list_view(r.used),
        nodes: pairs_view(r.nodes),
        reward: graph::label_view(r.reward),
        spread: r.spread,
        depth: r.depth,
        fan: graph::label_view(r.fan),
        top_k: r.top_k,
        ts: r.ts,
    }
}

pub open spec fn feedback_of(v: JsonV) -> Option<FeedbackV> {
    match (
        is_request(v, 10, 10),
        opt_whole(records::part_of(v, "trace_id"@, 0), u64::MAX),
        opt_texts(records::part_of(v, "seeds"@, 1)),
        opt_texts(records::part_of(v, "used"@, 2)),
        opt_scores(records::part_of(v, "nodes"@, 3)),
        opt_number(records::part_of(v, "reward"@, 4)),
        opt_spread(records::part_of(v, "spread"@, 5)),
        opt_whole(records::part_of(v, "depth"@, 6), u32::MAX as u64),
        opt_number(records::part_of(v, "fan"@, 7)),
        whole_or(records::part_of(v, "top_k"@, 8), 10),
        opt_int(records::part_of(v, "ts"@, 9)),
    ) {
        (
            true,
            Some(trace_id),
            Some(seeds),
            Some(used),
            Some(nodes),
            Some(reward),
            Some(spread),
            Some(depth),
            Some(fan),
            Some(top_k),
            Some(ts),
        ) => Some(
            FeedbackReq {
                trace_id,
                seeds,
                used,
                nodes,
                reward,
                spread,
                depth,
                fan,
                top_k,
                ts,
            },
        ),
        _ => None,
    }
}

/// Reads feedback.
pub fn read_feedback(v: &Json) -> (res: Option<FeedbackX>)
    ensures
        match res {
            Some(r) => feedback_of(v@) == Some(feedback_view(r)),
            None => feedback_of(v@) is None,
        },
{
    if !request_shape(v, 10, 10) {
        return None;
    }
    match (
        opt_whole_of(v.part("trace_id", 0), u64::MAX),
        opt_texts_of(v.part("seeds", 1)),
        opt_texts_of(v.part("used", 2)),
        opt_scores_of(v.part("nodes", 3)),
        opt_number_of(v.part("reward", 4)),
        opt_spread_of(v.part("spread", 5)),
        opt_whole_of(v.part("depth", 6), u32::MAX as u64),
        opt_number_of(v.part("fan", 7)),
        whole_or_of(v.part("top_k", 8), 10),
        opt_int_of(v.part("ts", 9)),
    ) {
        (
            Some(trace_id),
            Some(seeds),
            Some(used),
            Some(nodes),
            Some(reward),
            Some(spread),
            Some(depth),
            Some(fan),
            Some(top_k),
            Some(ts),
        ) => Some(
            FeedbackReq {
                trace_id,
                seeds,
                used,
                nodes,
                reward,
                spread,
                depth,
                fan,
                top_k,
                ts,
            },
        ),
        _ => None,
    }
}

/// What credit a request gives: scores before a reward, a reward before use.
#[derive(Debug, Clone, Copy, PartialEq, Eq, Structural)]
pub enum CreditKind {
    Nodes,
    Reward,
    Used,
}

pub open spec fn credit_kind(r: FeedbackV) -> Result<CreditKind, RefusalV> {
    if r.nodes is Some {
        Ok(CreditKind::Nodes)
    } else if r.reward is Some {
        Ok(CreditKind::Reward)
    } else if r.used is Some {
        Ok(CreditKind::Used)
    } else {
        Err(RefusalV { code: 400, message: "feedback needs one of: nodes, reward, used"@ })
    }
}

/// What credit a request gives.
pub fn credit_of(r: &FeedbackX) -> (res: Result<CreditKind, Refusal>)
    ensures
        match res {
            Ok(k) => credit_kind(feedback_view(*r)) == Ok::<CreditKind, RefusalV>(k),
            Err(e) => credit_kind(feedback_view(*r)) == Err::<CreditKind, RefusalV>(e@),
        },
{
    if r.nodes.is_some() {
        Ok(CreditKind::Nodes)
    } else if r.reward.is_some() {
        Ok(CreditKind::Reward)
    } else if r.used.is_some() {
        Ok(CreditKind::Used)
    } else {
        Err(refuse(400, "feedback needs one of: nodes, reward, used"))
    }
}

/// Which retrieval is credited.
#[derive(Debug, Clone, Copy, PartialEq, Eq, Structural)]
pub enum CreditTarget {
    /// The stored trace.
    Stored,
    /// A retrieval that is made again.
    Again,
}

/// Which retrieval is credited; `known` says whether the trace is stored.
pub open spec fn credit_target(r: FeedbackV, known: bool) -> Result<CreditTarget, RefusalV> {
    if r.trace_id is Some {
        if known {
            Ok(CreditTarget::Stored)
        } else {
            Err(RefusalV { code: 404, message: "unknown trace_id (evicted or never issued)"@ })
        }
    } else if r.seeds is Some {
        Ok(CreditTarget::Again)
    } else {
        Err(RefusalV { code: 400, message: "feedback needs trace_id or seeds"@ })
    }
}

/// Which retrieval is credited.
pub fn target_of(r: &FeedbackX, known: bool) -> (res: Result<CreditTarget, Refusal>)
    ensures
        match res {
            Ok(t) => credit_target(feedback_view(*r), known) == Ok::<CreditTarget, RefusalV>(t),
            Err(e) => credit_target(feedback_view(*r), known) == Err::<CreditTarget, RefusalV>(e@),
        },
{
    if r.trace_id.is_some() {
        if known {
            Ok(CreditTarget::Stored)
        } else {
            Err(refuse(404, "unknown trace_id (evicted or never issued)"))
        }
    } else if r.seeds.is_some() {
        Ok(CreditTarget::Again)
    } else {
        Err(refuse(400, "feedback needs trace_id or seeds"))
    }
}

/// The refusal of feedback past its rate.
pub fn too_much_feedback(max: u32) -> (res: Refusal)
    ensures
        res@ == (RefusalV {
            code: 429,
            message: "feedback rate limit ("@ + text::decimal(max as nat) + "/min) exceeded"@,
        }),
{
    let n = text::decimal_text(max as u64);
    Refusal { code: 429, message: cat3("feedback rate limit (", n.as_str(), "/min) exceeded") }
}

/// A change of a database. `R` is a refusal, `S` text, `T` a list of edges, `F`
/// feedback.
pub enum WritePlan<R, S, T, F> {
    Refused(R),
    Ingest(IngestReq<S>),
    Touch { edges: T, ts: Option<i64> },
    Feedback(F),
    Sleep { ts: Option<i64> },
    Checkpoint { archive: bool },
    Quarantine { prefix: S, trust: Option<S> },
    Purge { prefix: S },
    Consolidate { ts: Option<i64>, apply: bool },
}

pub type WritePlanV = WritePlan<RefusalV, Seq<char>, Seq<TouchV>, FeedbackV>;

pub type WritePlanX = WritePlan<Refusal, String, Vec<EdgeSpec>, FeedbackX>;

pub open spec fn write_view(p: WritePlanX) -> WritePlanV {
    match p {
        WritePlan::Refused(r) => WritePlan::Refused(r@),
        WritePlan::Ingest(r) => WritePlan::Ingest(ingest_view(r)),
        WritePlan::Touch { edges, ts } => WritePlan::Touch { edges: spec_views(edges@), ts },
        WritePlan::Feedback(f) => WritePlan::Feedback(feedback_view(f)),
        WritePlan::Sleep { ts } => WritePlan::Sleep { ts },
        WritePlan::Checkpoint { archive } => WritePlan::Checkpoint { archive },
        WritePlan::Quarantine { prefix, trust } => WritePlan::Quarantine {
            prefix: prefix@,
            trust: graph::label_view(trust),
        },
        WritePlan::Purge { prefix } => WritePlan::Purge { prefix: prefix@ },
        WritePlan::Consolidate { ts, apply } => WritePlan::Consolidate { ts, apply },
    }
}

/// A batch is checked before the store is touched.
pub open spec fn checked_ingest(r: IngestReq<Seq<char>>) -> WritePlanV {
    if r.cai {
        match gcp::parsed(r.json) {
            Ok(_) => WritePlan::Ingest(r),
            Err(e) => WritePlan::Refused(
                RefusalV { code: 400, message: "bad CAI snapshot: "@ + e },
            ),
        }
    } else {
        match entity::parsed(r.json) {
            Ok(_) => WritePlan::Ingest(r),
            Err(e) => WritePlan::Refused(RefusalV { code: 400, message: "bad entities: "@ + e }),
        }
    }
}

/// A batch is checked before the store is touched.
pub fn check_ingest(r: IngestReq<String>) -> (res: WritePlanX)
    ensures
        write_view(res) == checked_ingest(ingest_view(r)),
{
    if r.cai {
        match gcp::parse_snapshot(r.json.as_str()) {
            Ok(_) => WritePlan::Ingest(r),
            Err(e) => WritePlan::Refused(
                Refusal { code: 400, message: cat2("bad CAI snapshot: ", e.as_str()) },
            ),
        }
    } else {
        match entity::parse_entities(r.json.as_str()) {
            Ok(_) => WritePlan::Ingest(r),
            Err(e) => WritePlan::Refused(
                Refusal { code: 400, message: cat2("bad entities: ", e.as_str()) },
            ),
        }
    }
}

/// The route of a write that has a document.
#[derive(Debug, Clone, Copy, PartialEq, Eq, Structural)]
pub enum WriteRoute {
    Ingest,
    Touch,
    Feedback,
    Checkpoint,
    Quarantine,
    Purge,
    Consolidate,
}

/// What a document of a write asks for.
pub open spec fn write_of(route: WriteRoute, v: JsonV) -> WritePlanV {
    match route {
        WriteRoute::Ingest => match ingest_of(v) {
            Some(r) => checked_ingest(r),
            None => WritePlan::Refused(bad_request()),
        },
        WriteRoute::Touch => match (
            is_request(v, 2, 2),
            touch_list(records::part_of(v, "edges"@, 0)),
            opt_int(records::part_of(v, "ts"@, 1)),
        ) {
            (true, Some(edges), Some(ts)) => WritePlan::Touch { edges, ts },
            _ => WritePlan::Refused(bad_request()),
        },
        WriteRoute::Feedback => match feedback_of(v) {
            Some(f) => WritePlan::Feedback(f),
            None => WritePlan::Refused(bad_request()),
        },
        WriteRoute::Checkpoint => match (
            is_request(v, 0, 1),
            bool_or(records::part_of(v, "archive"@, 0), true),
        ) {
            (true, Some(archive)) => WritePlan::Checkpoint { archive },
            _ => WritePlan::Refused(bad_request()),
        },
        WriteRoute::Quarantine => match (
            is_request(v, 1, 2),
            records::text_part(records::part_of(v, "origin_prefix"@, 0)),
            trust_part(records::part_of(v, "trust"@, 1)),
        ) {
            (true, Some(prefix), Some(trust)) => if prefix.len() == 0 {
                WritePlan::Refused(
                    RefusalV { code: 400, message: "origin_prefix must be non-empty"@ },
                )
            } else {
                WritePlan::Quarantine { prefix, trust }
            },
            _ => WritePlan::Refused(bad_request()),
        },
        WriteRoute::Purge => match (
            is_request(v, 1, 1),
            records::text_part(records::part_of(v, "origin_prefix"@, 0)),
        ) {
            (true, Some(prefix)) => WritePlan::Purge { prefix },
            _ => WritePlan::Refused(bad_request()),
        },
        WriteRoute::Consolidate => match (
            is_request(v, 1, 2),
            opt_int(records::part_of(v, "ts"@, 0)),
            bool_or(records::part_of(v, "apply_conflicts"@, 1), false),
        ) {
            (true, Some(ts), Some(apply)) => WritePlan::Consolidate { ts, apply },
            _ => WritePlan::Refused(bad_request()),
        },
    }
}

/// How much a provenance is trusted, as a text; none where it is not said,
/// which means not at all.
pub open spec fn trust_part(v: Option<JsonV>) -> Option<Option<Seq<char>>> {
    match v {
        None => Some(None),
        Some(JsonV::Num(s)) => Some(Some(s)),
        _ => None,
    }
}

fn trust_of(v: Option<&Json>) -> (res: Option<Option<String>>)
    ensures
        match res {
            Some(s) => trust_part(records::json_opt(v)) == Some(graph::label_view(s)),
            None => trust_part(records::json_opt(v)) is None,
        },
{
    match v {
        None => Some(None),
        Some(Json::Num(s)) => Some(Some(s.clone())),
        _ => None,
    }
}

/// What a document of a write asks for.
pub fn plan_write_json(route: WriteRoute, v: &Json) -> (res: WritePlanX)
    ensures
        write_view(res) == write_of(route, v@),
{
    match route {
        WriteRoute::Ingest => match read_ingest(v) {
            Some(r) => check_ingest(r),
            None => WritePlan::Refused(bad_body()),
        },
        WriteRoute::Touch => match (
            request_shape(v, 2, 2),
            touch_list_of(v.part("edges", 0)),
            opt_int_of(v.part("ts", 1)),
        ) {
            (true, Some(edges), Some(ts)) => WritePlan::Touch { edges, ts },
            _ => WritePlan::Refused(bad_body()),
        },
        WriteRoute::Feedback => match read_feedback(v) {
            Some(f) => WritePlan::Feedback(f),
            None => WritePlan::Refused(bad_body()),
        },
        WriteRoute::Checkpoint => match (
            request_shape(v, 0, 1),
            bool_or_of(v.part("archive", 0), true),
        ) {
            (true, Some(archive)) => WritePlan::Checkpoint { archive },
            _ => WritePlan::Refused(bad_body()),
        },
        WriteRoute::Quarantine => match (
            request_shape(v, 1, 2),
            records::text_of_part(v.part("origin_prefix", 0)),
            trust_of(v.part("trust", 1)),
        ) {
            (true, Some(prefix), Some(trust)) => if prefix.as_str().is_empty() {
                WritePlan::Refused(refuse(400, "origin_prefix must be non-empty"))
            } else {
                WritePlan::Quarantine { prefix, trust }
            },
            _ => WritePlan::Refused(bad_body()),
        },
        WriteRoute::Purge => match (
            request_shape(v, 1, 1),
            records::text_of_part(v.part("origin_prefix", 0)),
        ) {
            (true, Some(prefix)) => WritePlan::Purge { prefix },
            _ => WritePlan::Refused(bad_body()),
        },
        WriteRoute::Consolidate => match (
            request_shape(v, 1, 2),
            opt_int_of(v.part("ts", 0)),
            bool_or_of(v.part("apply_conflicts", 1), false),
        ) {
            (true, Some(ts), Some(apply)) => WritePlan::Consolidate { ts, apply },
            _ => WritePlan::Refused(bad_body()),
        },
    }
}

/// What a body of a write asks for.
pub open spec fn write_of_body(route: WriteRoute, body: Seq<char>) -> WritePlanV {
    match body_json(body) {
        Ok(v) => write_of(route, v),
        Err(e) => WritePlan::Refused(e),
    }
}

fn plan_write_body(route: WriteRoute, body: &str) -> (res: WritePlanX)
    ensures
        write_view(res) == write_of_body(route, body@),
{
    match body_json_of(body) {
        Ok(v) => plan_write_json(route, &v),
        Err(e) => WritePlan::Refused(e),
    }
}

/// The time in the body of a sleep, if it names one.
pub open spec fn sleep_time(body: Seq<char>) -> Option<i64> {
    match json::json_parse(body) {
        Ok(JsonV::Obj(o)) => codec::int_part(json::field(o, "ts"@)),
        _ => None,
    }
}

fn sleep_time_of(body: &str) -> (res: Option<i64>)
    ensures
        res == sleep_time(body@),
{
    match parse_json(body) {
        Ok(v) => {
            proof {
                json::lemma_json_view(v);
            }
            match &v {
                Json::Obj(_) => int_of_part(v.get("ts")),
                _ => None,
            }
        },
        Err(_) => None,
    }
}

/// What a write asks for. Deleting facts cannot be undone, so it takes a server
/// with a token.
pub open spec fn planned_write(verb: Verb, route: Seq<char>, body: Seq<char>, has_token: bool) -> WritePlanV {
    if verb != Verb::Post {
        WritePlan::Refused(RefusalV { code: 404, message: "not found"@ })
    } else if route == "/ingest"@ {
        write_of_body(WriteRoute::Ingest, body)
    } else if route == "/touch"@ {
        write_of_body(WriteRoute::Touch, body)
    } else if route == "/feedback"@ {
        write_of_body(WriteRoute::Feedback, body)
    } else if route == "/sleep"@ {
        WritePlan::Sleep { ts: sleep_time(body) }
    } else if route == "/checkpoint"@ {
        if records::is_blank(body) {
            WritePlan::Checkpoint { archive: true }
        } else {
            write_of_body(WriteRoute::Checkpoint, body)
        }
    } else if route == "/quarantine"@ {
        write_of_body(WriteRoute::Quarantine, body)
    } else if route == "/purge"@ {
        if !has_token {
            WritePlan::Refused(
                RefusalV {
                    code: 403,
                    message: "POST /purge is disabled unless the server runs with --token"@,
                },
            )
        } else {
            write_of_body(WriteRoute::Purge, body)
        }
    } else if route == "/consolidate"@ {
        if records::is_blank(body) {
            WritePlan::Consolidate { ts: None, apply: false }
        } else {
            write_of_body(WriteRoute::Consolidate, body)
        }
    } else {
        WritePlan::Refused(RefusalV { code: 404, message: "not found"@ })
    }
}

/// What a write asks for.
pub fn plan_write(verb: Verb, route: &str, body: &str, has_token: bool) -> (res: WritePlanX)
    ensures
        write_view(res) == planned_write(verb, route@, body@, has_token),
{
    if verb != Verb::Post {
        return WritePlan::Refused(refuse(404, "not found"));
    }
    if same_text(route, "/ingest") {
        plan_write_body(WriteRoute::Ingest, body)
    } else if same_text(route, "/touch") {
        plan_write_body(WriteRoute::Touch, body)
    } else if same_text(route, "/feedback") {
        plan_write_body(WriteRoute::Feedback, body)
    } else if same_text(route, "/sleep") {
        WritePlan::Sleep { ts: sleep_time_of(body) }
    } else if same_text(route, "/checkpoint") {
        if records::blank(body) {
            WritePlan::Checkpoint { archive: true }
        } else {
            plan_write_body(WriteRoute::Checkpoint, body)
        }
    } else if same_text(route, "/quarantine") {
        plan_write_body(WriteRoute::Quarantine, body)
    } else if same_text(route, "/purge") {
        if !has_token {
            WritePlan::Refused(
                refuse(403, "POST /purge is disabled unless the server runs with --token"),
            )
        } else {
            plan_write_body(WriteRoute::Purge, body)
        }
    } else if same_text(route, "/consolidate") {
        if records::blank(body) {
            WritePlan::Consolidate { ts: None, apply: false }
        } else {
            plan_write_body(WriteRoute::Consolidate, body)
        }
    } else {
        WritePlan::Refused(refuse(404, "not found"))
    }
}

/// Nothing is purged by a server without a token.
pub proof fn purge_takes_a_token(verb: Verb, route: Seq<char>, body: Seq<char>)
    ensures
        planned_write(verb, route, body, false) !is Purge,
{
}

/// The refusal of a database whose log could not be written.
pub fn wedged_refusal(err: &str) -> (res: Refusal)
    ensures
        res@ == (RefusalV {
            code: 503,
            message: "database is wedged read-only (WAL write failed: "@ + err@
                + "); restart the server after fixing the disk"@,
        }),
{
    Refusal {
        code: 503,
        message: cat3(
            "database is wedged read-only (WAL write failed: ",
            err,
            "); restart the server after fixing the disk",
        ),
    }
}

/// A step of a write that can fail after something was done.
#[derive(Debug, Clone, Copy, PartialEq, Eq, Structural)]
pub enum Stage {
    Ingest,
    Trace,
    Feedback,
    Sleep,
    Checkpoint,
    CheckpointSidecar,
    CheckpointTraces,
    Quarantine,
    Purge,
    PurgeSidecar,
    PurgeTraces,
    ConflictJournal,
    ConflictFlush,
    Consolidate,
}

/// What is said of a step that failed, before the reason.
pub open spec fn failed(stage: Stage) -> Seq<char> {
    match stage {
        Stage::Ingest => "ingest failed mid-write; database wedged read-only: "@,
        Stage::Trace => "trace not persisted: "@,
        Stage::Feedback => "feedback applied but not persisted: "@,
        Stage::Sleep => "sleep ran but not persisted: "@,
        Stage::Checkpoint => "checkpoint failed; database wedged read-only: "@,
        Stage::CheckpointSidecar => "checkpoint done but sidecar not persisted: "@,
        Stage::CheckpointTraces => "checkpoint done but trace log not cleared: "@,
        Stage::Quarantine => "trust applied but config not persisted: "@,
        Stage::Purge => "purge failed; database wedged read-only: "@,
        Stage::PurgeSidecar => "purge done but sidecar not persisted: "@,
        Stage::PurgeTraces => "purge done but trace log not cleared: "@,
        Stage::ConflictJournal => "conflict op not journaled; database wedged read-only: "@,
        Stage::ConflictFlush => "conflict ops not persisted; database wedged read-only: "@,
        Stage::Consolidate => "consolidation ran but not persisted: "@,
    }
}

/// Whether memory and disk may differ after a step that failed, so that the
/// database takes no more writes.
pub open spec fn diverges(stage: Stage) -> bool {
    match stage {
        Stage::Ingest => true,
        Stage::Checkpoint => true,
        Stage::Purge => true,
        Stage::ConflictJournal => true,
        Stage::ConflictFlush => true,
        _ => false,
    }
}

/// The refusal after a step that failed, and whether the database takes no
/// more writes.
pub fn failure(stage: Stage, reason: &str) -> (res: (Refusal, bool))
    ensures
        res.0@ == (RefusalV { code: 500, message: failed(stage) + reason@ }),
        res.1 == diverges(stage),
{
    let (head, wedges) = match stage {
        Stage::Ingest => ("ingest failed mid-write; database wedged read-only: ", true),
        Stage::Trace => ("trace not persisted: ", false),
        Stage::Feedback => ("feedback applied but not persisted: ", false),
        Stage::Sleep => ("sleep ran but not persisted: ", false),
        Stage::Checkpoint => ("checkpoint failed; database wedged read-only: ", true),
        Stage::CheckpointSidecar => ("checkpoint done but sidecar not persisted: ", false),
        Stage::CheckpointTraces => ("checkpoint done but trace log not cleared: ", false),
        Stage::Quarantine => ("trust applied but config not persisted: ", false),
        Stage::Purge => ("purge failed; database wedged read-only: ", true),
        Stage::PurgeSidecar => ("purge done but sidecar not persisted: ", false),
        Stage::PurgeTraces => ("purge done but trace log not cleared: ", false),
        Stage::ConflictJournal => (
            "conflict op not journaled; database wedged read-only: ",
            true,
        ),
        Stage::ConflictFlush => ("conflict ops not persisted; database wedged read-only: ", true),
        Stage::Consolidate => ("consolidation ran but not persisted: ", false),
    };
    (Refusal { code: 500, message: cat2(head, reason) }, wedges)
}

// ---------------------------------------------------------------------------
// Repeated requests
// ---------------------------------------------------------------------------

/// The key that the response to a request is stored under.
pub fn cache_key(method: &str, route: &str, key: &str) -> (res: String)
    ensures
        res@ == method@ + " "@ + route@ + " "@ + key@,
{
    cat5(method, " ", route, " ", key)
}

/// Whether a response is stored, so that a repeated request gets it again: it
/// is final unless the server failed.
pub fn is_final(code: u16) -> (res: bool)
    ensures
        res == (code < 500),
{
    code < 500
}

/// The refusal of a request that is being worked on already.
pub fn in_flight() -> (res: Refusal)
    ensures
        res@ == (RefusalV {
            code: 409,
            message: "a request with this Idempotency-Key is already in flight"@,
        }),
{
    refuse(409, "a request with this Idempotency-Key is already in flight")
}

// ---------------------------------------------------------------------------
// Responses
// ---------------------------------------------------------------------------

/// The body of a refusal.
pub open spec fn error_json(message: Seq<char>) -> JsonV {
    JsonV::Obj(seq![("error"@, JsonV::Str(message))])
}

/// The body of a refusal.
pub fn error_body(message: &str) -> (res: String)
    ensures
        res@ == json::json_text(error_json(message@)),
{
    object1("error", str_json(message)).text()
}

/// What is served without a token.
#[derive(Debug, Clone, Copy, PartialEq, Eq, Structural)]
pub enum Public {
    /// The server runs.
    Alive,
    /// The server is ready.
    Ready,
    /// The page of the console.
    Page,
    /// Nothing: the request needs a scope.
    Private,
}

/// What a path serves without a token.
pub open spec fn public_of(verb: Verb, path: Seq<char>) -> Public {
    if verb != Verb::Get {
        Public::Private
    } else if path == "/health"@ || path == "/live"@ {
        Public::Alive
    } else if path == "/ready"@ {
        Public::Ready
    } else if path == "/"@ || path == "/ui"@ || path == "/ui/"@ {
        Public::Page
    } else {
        Public::Private
    }
}

/// What a path serves without a token.
pub fn open_path(verb: Verb, path: &str) -> (res: Public)
    ensures
        res == public_of(verb, path@),
{
    if verb != Verb::Get {
        Public::Private
    } else if same_text(path, "/health") || same_text(path, "/live") {
        Public::Alive
    } else if same_text(path, "/ready") {
        Public::Ready
    } else if same_text(path, "/") || same_text(path, "/ui") || same_text(path, "/ui/") {
        Public::Page
    } else {
        Public::Private
    }
}

/// The path of a URL: what stands before the question mark.
pub fn path_of(url: &str) -> (res: String)
    ensures
        res@ == text::split_char(url@, '?')[0],
{
    let ps = text::split_text(url, '?');
    proof {
        text::lemma_split_nonempty(url@, text::equals('?'));
        assert(text::views(ps@)[0] == ps@[0]@);
    }
    ps[0].clone()
}

/// The refusal of a body that is too large, by its announced length.
pub fn announced_too_large(len: usize, max: usize) -> (res: Option<Refusal>)
    ensures
        match res {
            Some(r) => len > max && r@ == (RefusalV {
                code: 413,
                message: "body too large ("@ + text::decimal(len as nat) + " > "@ + text::decimal(
                    max as nat,
                ) + " bytes)"@,
            }),
            None => len <= max,
        },
{
    if len > max {
        let m = cat5(
            "body too large (",
            text::decimal_text(len as u64).as_str(),
            " > ",
            text::decimal_text(max as u64).as_str(),
            " bytes)",
        );
        Some(Refusal { code: 413, message: m })
    } else {
        None
    }
}

/// The refusal of a body that is too large, by what was read of it.
pub fn too_large(len: usize, max: usize) -> (res: Option<Refusal>)
    ensures
        match res {
            Some(r) => len > max && r@ == (RefusalV {
                code: 413,
                message: "body too large (> "@ + text::decimal(max as nat) + " bytes)"@,
            }),
            None => len <= max,
        },
{
    if len > max {
        let n = text::decimal_text(max as u64);
        Some(Refusal { code: 413, message: cat3("body too large (> ", n.as_str(), " bytes)") })
    } else {
        None
    }
}

} // verus!
