//! Laws of what is read and written as text, stated over its parts: lists of
//! records, members of objects, intervals, URLs, routes and counters.

use crate::access::{ScopeV, Verb};
use crate::api;
use crate::api::{DbPlan, DbPlanV};
use crate::args;
use crate::cli;
use crate::entity;
use crate::gcp;
use crate::http;
use crate::json;
use crate::json::JsonV;
use crate::log;
use crate::paths;
use crate::paths::Ancestor;
use crate::prom;
use crate::prom::RouteV;
use crate::records;
use crate::standby;
use crate::standby::Shipment;
use crate::text;
use vstd::prelude::*;

verus! {

// ---------------------------------------------------------------------------
// Lists of records
// ---------------------------------------------------------------------------

/// A list of texts is read where each of them is a document, and gives those
/// documents in order.
pub proof fn documents_are_read_one_by_one(texts: Seq<Seq<char>>)
    ensures
        match records::parse_each(texts) {
            Ok(docs) => docs.len() == texts.len() && forall|i: int|
                0 <= i < texts.len() ==> json::json_parse(#[trigger] texts[i]) == Ok::<
                    JsonV,
                    Seq<char>,
                >(docs[i]),
            Err(e) => exists|i: int|
                0 <= i < texts.len() && json::json_parse(#[trigger] texts[i]) == Err::<
                    JsonV,
                    Seq<char>,
                >(e) && forall|j: int|
                    0 <= j < i ==> json::json_parse(#[trigger] texts[j]) is Ok,
        },
    decreases texts.len(),
{
    if texts.len() > 0 {
        let front = texts.drop_last();
        let last = texts.len() - 1;
        documents_are_read_one_by_one(front);
        assert forall|i: int| 0 <= i < last implies front[i] == #[trigger] texts[i] by {}
        match records::parse_each(front) {
            Ok(before) => {
                assert(texts[last] == texts.last());
            },
            Err(e) => {
                let i = choose|i: int|
                    0 <= i < front.len() && json::json_parse(#[trigger] front[i]) == Err::<
                        JsonV,
                        Seq<char>,
                    >(e) && forall|j: int|
                        0 <= j < i ==> json::json_parse(#[trigger] front[j]) is Ok;
                assert(texts[i] == front[i]);
                assert forall|j: int| 0 <= j < i implies json::json_parse(
                    #[trigger] texts[j],
                ) is Ok by {
                    assert(front[j] == texts[j]);
                }
            },
        }
    }
}

/// Strings are read from an array where every element is one, and all of them are.
pub proof fn strings_are_read_all_or_none(a: Seq<JsonV>)
    ensures
        match gcp::strings_of(a) {
            Some(l) => l.len() == a.len() && forall|i: int|
                0 <= i < a.len() ==> #[trigger] a[i] == JsonV::Str(l[i]),
            None => exists|i: int| 0 <= i < a.len() && !((#[trigger] a[i]) is Str),
        },
    decreases a.len(),
{
    if a.len() > 0 {
        let front = a.drop_last();
        strings_are_read_all_or_none(front);
        assert(a[a.len() - 1] == a.last());
        assert forall|i: int| 0 <= i < front.len() implies front[i] == #[trigger] a[i] by {}
        if gcp::strings_of(front) is None {
            let i = choose|i: int| 0 <= i < front.len() && !((#[trigger] front[i]) is Str);
            assert(a[i] == front[i]);
        }
    }
}

/// Assets are read where every document is one, and all of them are, in order.
pub proof fn assets_are_read_all_or_none(a: Seq<JsonV>)
    ensures
        match gcp::assets_of(a) {
            Some(l) => l.len() == a.len() && forall|i: int|
                0 <= i < a.len() ==> gcp::asset_of(#[trigger] a[i]) == Some(l[i]),
            None => exists|i: int| 0 <= i < a.len() && gcp::asset_of(#[trigger] a[i]) is None,
        },
    decreases a.len(),
{
    if a.len() > 0 {
        let front = a.drop_last();
        assets_are_read_all_or_none(front);
        assert(a[a.len() - 1] == a.last());
        assert forall|i: int| 0 <= i < front.len() implies front[i] == #[trigger] a[i] by {}
        if gcp::assets_of(front) is None {
            let i = choose|i: int|
                0 <= i < front.len() && gcp::asset_of(#[trigger] front[i]) is None;
            assert(a[i] == front[i]);
        }
    }
}

/// Entities are read where every document is one, and all of them are, in order.
pub proof fn entities_are_read_all_or_none(a: Seq<JsonV>)
    ensures
        match entity::entities_of(a) {
            Some(l) => l.len() == a.len() && forall|i: int|
                0 <= i < a.len() ==> entity::entity_of(#[trigger] a[i]) == Some(l[i]),
            None => exists|i: int| 0 <= i < a.len() && entity::entity_of(#[trigger] a[i]) is None,
        },
    decreases a.len(),
{
    if a.len() > 0 {
        let front = a.drop_last();
        entities_are_read_all_or_none(front);
        assert(a[a.len() - 1] == a.last());
        assert forall|i: int| 0 <= i < front.len() implies front[i] == #[trigger] a[i] by {}
        if entity::entities_of(front) is None {
            let i = choose|i: int|
                0 <= i < front.len() && entity::entity_of(#[trigger] front[i]) is None;
            assert(a[i] == front[i]);
        }
    }
}

/// The edges of an entity are read where every one of them is an edge.
pub proof fn edges_are_read_all_or_none(a: Seq<JsonV>)
    ensures
        match entity::edges_of(a) {
            Some(l) => l.len() == a.len() && forall|i: int|
                0 <= i < a.len() ==> entity::edge_of(#[trigger] a[i]) == Some(l[i]),
            None => exists|i: int| 0 <= i < a.len() && entity::edge_of(#[trigger] a[i]) is None,
        },
    decreases a.len(),
{
    if a.len() > 0 {
        let front = a.drop_last();
        edges_are_read_all_or_none(front);
        assert(a[a.len() - 1] == a.last());
        assert forall|i: int| 0 <= i < front.len() implies front[i] == #[trigger] a[i] by {}
        if entity::edges_of(front) is None {
            let i = choose|i: int|
                0 <= i < front.len() && entity::edge_of(#[trigger] front[i]) is None;
            assert(a[i] == front[i]);
        }
    }
}

// ---------------------------------------------------------------------------
// Members
// ---------------------------------------------------------------------------

/// Of a member that is repeated the last one counts.
pub proof fn last_member_counts(o: Seq<(Seq<char>, JsonV)>, k: Seq<char>)
    ensures
        match json::field(o, k) {
            Some(v) => exists|i: int|
                0 <= i < o.len() && #[trigger] o[i] == (k, v) && forall|j: int|
                    i < j < o.len() ==> (#[trigger] o[j]).0 != k,
            None => forall|i: int| 0 <= i < o.len() ==> (#[trigger] o[i]).0 != k,
        },
    decreases o.len(),
{
    if o.len() > 0 {
        let front = o.drop_last();
        let last = o.len() - 1;
        if o.last().0 == k {
            assert(o[last] == (k, o.last().1));
        } else {
            last_member_counts(front, k);
            match json::field(front, k) {
                Some(v) => {
                    let i = choose|i: int|
                        0 <= i < front.len() && #[trigger] front[i] == (k, v) && forall|j: int|
                            i < j < front.len() ==> (#[trigger] front[j]).0 != k;
                    assert(o[i] == (k, v));
                    assert forall|j: int| i < j < o.len() implies (#[trigger] o[j]).0 != k by {
                        if j < last {
                            assert(front[j] == o[j]);
                        }
                    }
                },
                None => {
                    assert forall|i: int| 0 <= i < o.len() implies (#[trigger] o[i]).0 != k by {
                        if i < last {
                            assert(front[i] == o[i]);
                        }
                    }
                },
            }
        }
    }
}

/// Setting a member gives it its value and leaves the others as they are.
pub proof fn setting_a_member_leaves_the_others(
    o: Seq<(Seq<char>, JsonV)>,
    k: Seq<char>,
    v: JsonV,
    other: Seq<char>,
)
    ensures
        json::field(json::set_field(o, k, v), k) == Some(v),
        other != k ==> json::field(json::set_field(o, k, v), other) == json::field(o, other),
{
    if json::field(o, k) is Some {
        json::lemma_field_replace(o, k, v, k);
        json::lemma_field_replace(o, k, v, other);
    } else {
        json::lemma_field_insert(o, k, v, k);
        json::lemma_field_insert(o, k, v, other);
    }
}

/// Members that are merged in take precedence over those that were there.
pub proof fn merged_members_take_precedence(
    o: Seq<(Seq<char>, JsonV)>,
    extra: Seq<(Seq<char>, JsonV)>,
    k: Seq<char>,
)
    ensures
        json::field(log::merged(o, extra), k) == match json::field(extra, k) {
            Some(v) => Some(v),
            None => json::field(o, k),
        },
    decreases extra.len(),
{
    if extra.len() > 0 {
        let front = extra.drop_last();
        merged_members_take_precedence(o, front, k);
        setting_a_member_leaves_the_others(
            log::merged(o, front),
            extra.last().0,
            extra.last().1,
            k,
        );
    }
}

/// A log line says when, at which level and what happened, unless the fields that
/// go with it say otherwise, and every field that goes with it is there.
pub proof fn log_line_holds_its_parts(
    ts: Seq<char>,
    level: Seq<char>,
    event: Seq<char>,
    m: Seq<(Seq<char>, JsonV)>,
    k: Seq<char>,
)
    ensures
        ({
            let l = log::line_fields(ts, level, event, JsonV::Obj(m));
            &&& json::field(m, k) is Some ==> json::field(l, k) == json::field(m, k)
            &&& json::field(m, "ts"@) is None ==> json::field(l, "ts"@) == Some(JsonV::Str(ts))
            &&& json::field(m, "level"@) is None ==> json::field(l, "level"@) == Some(
                JsonV::Str(level),
            )
            &&& json::field(m, "event"@) is None ==> json::field(l, "event"@) == Some(
                JsonV::Str(event),
            )
        }),
{
    reveal_strlit("ts");
    reveal_strlit("level");
    reveal_strlit("event");
    assert("ts"@.len() == 2 && "level"@.len() == 5 && "event"@.len() == 5);
    assert("level"@[0] == 'l' && "event"@[0] == 'e');
    let none = Seq::<(Seq<char>, JsonV)>::empty();
    let first = seq![
        ("ts"@, JsonV::Str(ts)),
        ("level"@, JsonV::Str(level)),
        ("event"@, JsonV::Str(event)),
    ];
    let base = log::merged(none, first);
    last_member_counts(first, "ts"@);
    last_member_counts(first, "level"@);
    last_member_counts(first, "event"@);
    assert(first[0].0 == "ts"@ && first[1].0 == "level"@ && first[2].0 == "event"@);
    merged_members_take_precedence(none, first, "ts"@);
    merged_members_take_precedence(none, first, "level"@);
    merged_members_take_precedence(none, first, "event"@);
    merged_members_take_precedence(base, m, "ts"@);
    merged_members_take_precedence(base, m, "level"@);
    merged_members_take_precedence(base, m, "event"@);
    merged_members_take_precedence(base, m, k);
}

// ---------------------------------------------------------------------------
// Numbers and intervals
// ---------------------------------------------------------------------------

/// The decimal form of a number is read back, with a plus sign or without.
pub proof fn decimal_form_is_read_back(n: nat)
    ensures
        text::parse_unsigned(text::decimal(n)) == Some(n),
        text::parse_unsigned(seq!['+'] + text::decimal(n)) == Some(n),
        text::all_digits(text::decimal(n)),
{
    text::lemma_decimal_parse(n);
    let d = text::decimal(n);
    assert(text::is_digit(d[0]));
    assert((seq!['+'] + d).skip(1) =~= d);
}

/// An interval is a number of seconds, minutes, hours or days, by the letter
/// behind it, and of seconds without one. None of them is 0.
pub proof fn interval_is_a_number_of_its_unit(n: nat)
    requires
        0 < n,
        n * 86_400 <= u64::MAX,
    ensures
        cli::interval(text::decimal(n)) == Ok::<nat, Seq<char>>(n),
        cli::interval(text::decimal(n).push('s')) == Ok::<nat, Seq<char>>(n),
        cli::interval(text::decimal(n).push('m')) == Ok::<nat, Seq<char>>(60 * n),
        cli::interval(text::decimal(n).push('h')) == Ok::<nat, Seq<char>>(3600 * n),
        cli::interval(text::decimal(n).push('d')) == Ok::<nat, Seq<char>>(86_400 * n),
        cli::interval(text::decimal(0)) is Err,
        cli::interval(text::decimal(0).push('m')) is Err,
{
    decimal_form_is_read_back(n);
    decimal_form_is_read_back(0);
    let d = text::decimal(n);
    let z = text::decimal(0);
    assert(text::is_digit(d[d.len() - 1]));
    assert(text::is_digit(z[z.len() - 1]));
    assert(d.take(d.len() as int) =~= d);
    assert(z.take(z.len() as int) =~= z);
    assert(z.push('m').take(z.push('m').len() - 1) =~= z);
    assert forall|c: char| #[trigger] d.push(c).take(d.push(c).len() - 1) == d by {
        assert(d.push(c).take(d.push(c).len() - 1) =~= d);
    }
    assert(cli::interval_unit(d) == (1nat, 0nat));
    lemma_interval(d, n, 1, 0);
    lemma_interval(d.push('s'), n, 1, 1);
    lemma_interval(d.push('m'), n, 60, 1);
    lemma_interval(d.push('h'), n, 3600, 1);
    lemma_interval(d.push('d'), n, 86_400, 1);
}

proof fn lemma_interval(s: Seq<char>, n: nat, unit: nat, len: nat)
    requires
        cli::interval_unit(s) == (unit, len),
        text::parse_unsigned(s.take(s.len() - len)) == Some(n),
        0 < n,
        0 < unit <= 86_400,
        n * 86_400 <= u64::MAX,
    ensures
        cli::interval(s) == Ok::<nat, Seq<char>>(unit * n),
{
    assert(n * unit == unit * n && n <= n * unit <= n * 86_400) by (nonlinear_arith)
        requires
            0 < unit <= 86_400,
    ;
}

// ---------------------------------------------------------------------------
// Requests
// ---------------------------------------------------------------------------

/// A URL leads to the host that stands before its first slash, and to the path
/// from that slash on; without one, to the root.
pub proof fn url_leads_to_its_host_and_path(host: Seq<char>, tail: Seq<char>)
    requires
        !host.contains('/'),
    ensures
        http::target("http://"@ + host + "/"@ + tail) == Some((host, "/"@ + tail)),
        http::target("http://"@ + host) == Some((host, "/"@)),
{
    reveal_strlit("http://");
    reveal_strlit("/");
    let a = "http://"@ + host + "/"@ + tail;
    let b = "http://"@ + host;
    assert(a.subrange(0, 7) =~= "http://"@);
    assert(b.subrange(0, 7) =~= "http://"@);
    let rest = host + "/"@ + tail;
    assert(a.skip(7) =~= rest);
    assert(b.skip(7) =~= host);
    lemma_first_slash(rest, host.len() as int, 0);
    assert(rest.take(host.len() as int) =~= host);
    assert(rest.skip(host.len() as int) =~= "/"@ + tail);
    lemma_no_slash(host, 0);
    assert(host.take(host.len() as int) =~= host);
}

proof fn lemma_first_slash(s: Seq<char>, n: int, i: int)
    requires
        0 <= i <= n < s.len(),
        s[n] == '/',
        forall|j: int| i <= j < n ==> #[trigger] s[j] != '/',
    ensures
        args::index_from(s, '/', i) == n,
    decreases n - i,
{
    if i < n {
        assert(s[i] != '/');
        lemma_first_slash(s, n, i + 1);
    }
}

proof fn lemma_no_slash(s: Seq<char>, i: int)
    requires
        0 <= i <= s.len(),
        !s.contains('/'),
    ensures
        args::index_from(s, '/', i) == s.len(),
    decreases s.len() - i,
{
    if i < s.len() {
        assert(s.contains(s[i]));
        lemma_no_slash(s, i + 1);
    }
}

/// The status line of a response is what stands before its first line end.
pub proof fn status_line_is_the_first(line: Seq<char>, rest: Seq<char>)
    requires
        forall|i: int| 0 <= i < line.len() ==> #[trigger] line[i] != '\r',
    ensures
        http::status_line(line, 0) == line,
        http::status_line(line + seq!['\r', '\n'] + rest, 0) == line,
{
    lemma_status_line(line, 0, rest);
    lemma_whole_line(line, 0);
}

proof fn lemma_status_line(line: Seq<char>, i: int, rest: Seq<char>)
    requires
        0 <= i <= line.len(),
        forall|j: int| 0 <= j < line.len() ==> #[trigger] line[j] != '\r',
    ensures
        http::status_line(line + seq!['\r', '\n'] + rest, i) == line,
    decreases line.len() - i,
{
    let s = line + seq!['\r', '\n'] + rest;
    if i < line.len() {
        assert(s[i] == line[i]);
        lemma_status_line(line, i + 1, rest);
    } else {
        assert(s[i] == '\r' && s[i + 1] == '\n');
        assert(s.take(i) =~= line);
    }
}

proof fn lemma_whole_line(line: Seq<char>, i: int)
    requires
        0 <= i <= line.len(),
        forall|j: int| 0 <= j < line.len() ==> #[trigger] line[j] != '\r',
    ensures
        http::status_line(line, i) == line,
    decreases line.len() - i,
{
    if i + 1 < line.len() {
        assert(line[i] != '\r');
        lemma_whole_line(line, i + 1);
    }
}

/// A replica that may do more than read is sent the log from the offset that it
/// names; one that may only read is refused.
pub proof fn log_is_shipped_from_the_offset_named(scope: ScopeV, n: u64)
    ensures
        ({
            let r = standby::shipped(scope, Verb::Get, "/wal/tail/"@ + text::decimal(n as nat));
            &&& scope !is Read ==> (r matches Shipment::Tail { offset } && offset == n)
            &&& scope is Read ==> (r matches Shipment::Refused(e) && e.code == 403)
        }),
{
    reveal_strlit("/wal/tail/");
    let p = "/wal/tail/"@;
    let s = p + text::decimal(n as nat);
    assert(s.subrange(0, p.len() as int) =~= p);
    assert(s.skip(p.len() as int) =~= text::decimal(n as nat));
    decimal_form_is_read_back(n as nat);
}

/// A standby refuses what would change the database, and serves the rest as it is
/// asked for.
pub proof fn standby_serves_what_changes_nothing(plan: DbPlanV)
    ensures
        ({
            let changes = plan is Write || (plan matches DbPlan::Retrieve(r) && (r.adapt
                || r.trace));
            &&& changes ==> (standby::on_standby(plan) matches DbPlan::Refused(e) && e.code == 503)
            &&& !changes ==> standby::on_standby(plan) == plan
        }),
{
}

/// A trace is asked for by its number.
pub proof fn trace_is_asked_for_by_its_number(scope: ScopeV, n: u64, body: Seq<char>)
    ensures
        api::planned_db(scope, Verb::Get, "/trace/"@ + text::decimal(n as nat), body)
            == DbPlanV::Trace(Some(n)),
{
    reveal_strlit("/trace/");
    reveal_strlit("/ui");
    reveal_strlit("/graph");
    reveal_strlit("/traces");
    let p = "/trace/"@;
    let d = text::decimal(n as nat);
    let s = p + d;
    assert(s.subrange(0, 7) =~= p);
    assert(s.skip(7) =~= d);
    decimal_form_is_read_back(n as nat);
    assert(text::is_digit(d[0]));
    assert(!p.is_prefix_of(d)) by {
        if p.is_prefix_of(d) {
            assert(d[0] == p[0]);
        }
    }
    assert(s[6] == '/' && s[1] == 't');
    assert("/traces"@[6] == 's' && "/graph"@[1] == 'g' && "/ui"@[1] == 'u');
    reveal_with_fuel(api::without_prefixes, 3);
}

/// What a search leaves open has its default: sixteen hits, by tokens.
pub proof fn search_has_defaults(o: Seq<(Seq<char>, JsonV)>)
    ensures
        api::match_of(JsonV::Obj(o)) matches Some(r) ==> {
            &&& json::field(o, "limit"@) is None ==> r.limit == 16
            &&& json::field(o, "mode"@) is None ==> !r.substring
            &&& r.substring <==> json::field(o, "mode"@) == Some(JsonV::Str("substring"@))
            &&& json::field(o, "tokens"@) matches Some(JsonV::Arr(a)) && a.len() == r.tokens.len()
                && forall|i: int|
                0 <= i < a.len() ==> #[trigger] a[i] == JsonV::Str(r.tokens[i])
        },
{
    if let Some(r) = api::match_of(JsonV::Obj(o)) {
        let a = json::field(o, "tokens"@)->0->Arr_0;
        assert forall|i: int| 0 <= i < a.len() implies #[trigger] a[i] == JsonV::Str(
            r.tokens[i],
        ) by {
            assert(api::is_text()(a[i]));
        }
    }
}

/// What a retrieval leaves open has its default: ten nodes, and it adapts the graph
/// without storing a trace or explaining itself.
pub proof fn retrieval_has_defaults(o: Seq<(Seq<char>, JsonV)>)
    ensures
        api::retrieve_of(JsonV::Obj(o)) matches Some(r) ==> {
            &&& json::field(o, "top_k"@) is None ==> r.top_k == 10
            &&& json::field(o, "depth"@) is None ==> r.depth is None
            &&& json::field(o, "fan"@) is None ==> r.fan is None
            &&& json::field(o, "ts"@) is None ==> r.ts is None
            &&& r.adapt <==> json::field(o, "adapt"@) is None || json::field(o, "adapt"@) == Some(
                JsonV::Bool(true),
            )
            &&& r.trace <==> json::field(o, "trace"@) == Some(JsonV::Bool(true))
            &&& r.explain <==> json::field(o, "explain"@) == Some(JsonV::Bool(true))
        },
{
}

/// What a batch leaves open has its default: it is no complete snapshot, holds
/// entities, and has no time and no label of its own.
pub proof fn batch_has_defaults(o: Seq<(Seq<char>, JsonV)>)
    ensures
        api::ingest_of(JsonV::Obj(o)) matches Some(r) ==> {
            &&& json::field(o, "json"@) == Some(JsonV::Str(r.json))
            &&& r.reconcile <==> json::field(o, "reconcile"@) == Some(JsonV::Bool(true))
            &&& r.cai <==> json::field(o, "cai"@) == Some(JsonV::Bool(true))
            &&& json::field(o, "ts"@) is None ==> r.ts is None
            &&& json::field(o, "origin"@) is None ==> r.origin is None
        },
{
}

// ---------------------------------------------------------------------------
// Projects and counters
// ---------------------------------------------------------------------------

/// A project is rooted in the first directory, upward, that holds its memory or a
/// repository.
pub proof fn project_is_rooted_in_the_nearest_directory(ups: Seq<Ancestor>)
    ensures
        match paths::root_from(ups, 0) {
            Some(p) => exists|i: int|
                0 <= i < ups.len() && (#[trigger] ups[i]).path@ == p && (ups[i].has_memory
                    || ups[i].has_git) && forall|j: int|
                    0 <= j < i ==> !(#[trigger] ups[j]).has_memory && !ups[j].has_git,
            None => forall|i: int|
                0 <= i < ups.len() ==> !(#[trigger] ups[i]).has_memory && !ups[i].has_git,
        },
{
    lemma_root(ups, 0);
}

proof fn lemma_root(ups: Seq<Ancestor>, n: int)
    requires
        0 <= n <= ups.len(),
    ensures
        match paths::root_from(ups, n) {
            Some(p) => exists|i: int|
                n <= i < ups.len() && (#[trigger] ups[i]).path@ == p && (ups[i].has_memory
                    || ups[i].has_git) && forall|j: int|
                    n <= j < i ==> !(#[trigger] ups[j]).has_memory && !ups[j].has_git,
            None => forall|i: int|
                n <= i < ups.len() ==> !(#[trigger] ups[i]).has_memory && !ups[i].has_git,
        },
    decreases ups.len() - n,
{
    if n < ups.len() {
        if paths::is_root(ups[n]) {
            assert(ups[n].path@ == paths::root_from(ups, n)->0);
        } else {
            lemma_root(ups, n + 1);
        }
    }
}

/// One more request counts once, in its route class and in the class of its status,
/// and nowhere else.
pub proof fn request_is_counted_once(m: Seq<RouteV>, route: int, status: u16, nanos: u64, i: int)
    requires
        m.len() == 19,
        0 <= route < 19,
        0 <= i < 19,
        m[route].statuses.len() == 3,
    ensures
        ({
            let r = prom::recorded(m, route, status, nanos);
            let s: int = if 200 <= status <= 399 {
                0
            } else if 400 <= status <= 499 {
                1
            } else {
                2
            };
            &&& r.len() == 19
            &&& i != route ==> r[i] == m[i]
            &&& r[route].statuses[s] == m[route].statuses[s].wrapping_add(1)
            &&& forall|k: int|
                0 <= k < 3 && k != s ==> #[trigger] r[route].statuses[k] == m[route].statuses[k]
            &&& r[route].hist.count == m[route].hist.count.wrapping_add(1)
            &&& r[route].hist.sum_micros == m[route].hist.sum_micros.wrapping_add(
                (nanos / 1000) as u64,
            )
        }),
{
}

/// A text without the `c` that it begins with is what stands behind them.
pub proof fn leading_is_taken_off(s: Seq<char>, c: char)
    ensures
        ({
            let t = prom::without_leading(s, c);
            let n = s.len() - t.len();
            &&& t.len() <= s.len()
            &&& s.skip(n) == t
            &&& forall|i: int| 0 <= i < n ==> #[trigger] s[i] == c
            &&& t.len() > 0 ==> t[0] != c
        }),
    decreases s.len(),
{
    if s.len() > 0 && s[0] == c {
        let f = s.drop_first();
        leading_is_taken_off(f, c);
        let t = prom::without_leading(f, c);
        let n = s.len() - t.len();
        assert(s.skip(n) =~= f.skip(n - 1));
        assert forall|i: int| 0 <= i < n implies #[trigger] s[i] == c by {
            if i > 0 {
                assert(f[i - 1] == s[i]);
            }
        }
    } else {
        assert(s.skip(0) =~= s);
    }
}

/// The command line names a credit as two parts around one comma.
pub proof fn credit_is_a_name_and_a_score(name: Seq<char>, score: Seq<char>)
    requires
        !name.contains(','),
        !score.contains(','),
    ensures
        cli::comma_parts(name + seq![','] + score, 2) == Some(seq![name, score]),
{
    let sep = text::equals(',');
    let none = Seq::<char>::empty();
    assert forall|i: int| 0 <= i < name.len() implies !sep(#[trigger] name[i]) by {
        assert(name.contains(name[i]));
    }
    assert forall|i: int| 0 <= i < score.len() implies !sep(#[trigger] score[i]) by {
        assert(score.contains(score[i]));
    }
    text::lemma_split_extend(none, name, sep);
    assert(none + name =~= name);
    assert(text::split(name, sep) =~= seq![name]);
    let a = name + seq![','];
    assert(a.drop_last() =~= name);
    assert(text::split(a, sep) =~= seq![name, none]);
    text::lemma_split_extend(a, score, sep);
    assert(none + score =~= score);
    assert(text::split(a + score, sep) =~= seq![name, score]);
}

} // verus!
