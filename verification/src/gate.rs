//! The way of a change into a database: whether it may run, whether it ran
//! before, and what is kept of its outcome.

use crate::access::{Refusal, RefusalV};
use crate::api::{cache_key, in_flight, is_final, wedged_refusal};
use crate::graph;
use crate::json;
use crate::registry;
use crate::registry::Inflight;
use crate::store;
use crate::store::{stored_line, IdemStore, Stored, StoredV};
use crate::text::same_text;
use vstd::prelude::*;

verus! {

/// What becomes of a change. `R` is a refusal, `S` a text.
pub enum Gate<R, S> {
    Refused(R),
    /// It ran before: this was the answer.
    Replay { code: u16, body: S },
    /// It runs; its outcome is kept under the key, if it has one.
    Run { key: Option<S> },
}

pub type GateV = Gate<RefusalV, Seq<char>>;

pub type GateX = Gate<Refusal, String>;

pub open spec fn gate_view(g: GateX) -> GateV {
    match g {
        Gate::Refused(r) => Gate::Refused(r@),
        Gate::Replay { code, body } => Gate::Replay { code, body: body@ },
        Gate::Run { key } => Gate::Run { key: graph::label_view(key) },
    }
}

pub open spec fn refusal_view(r: Option<Refusal>) -> Option<RefusalV> {
    match r {
        Some(x) => Some(x@),
        None => None,
    }
}

/// The refusal of a database whose log could not be written.
pub open spec fn wedged_message(err: Seq<char>) -> RefusalV {
    RefusalV {
        code: 503,
        message: "database is wedged read-only (WAL write failed: "@ + err
            + "); restart the server after fixing the disk"@,
    }
}

pub open spec fn busy_message() -> RefusalV {
    RefusalV {
        code: 409,
        message: "a request with this Idempotency-Key is already in flight"@,
    }
}

/// The key that the outcome of a change is kept under.
pub open spec fn kept_under(method: Seq<char>, route: Seq<char>, key: Seq<char>) -> Seq<char> {
    method + " "@ + route + " "@ + key
}

/// Whether growth has to be within quota for a route.
pub open spec fn grows(route: Seq<char>) -> bool {
    route == "/ingest"@
}

/// Whether growth has to be within quota for a route: what makes a full
/// database smaller must keep working on it.
pub fn needs_room(route: &str) -> (res: bool)
    ensures
        res == grows(route@),
{
    same_text(route, "/ingest")
}

/// What becomes of a change, and which requests are being worked on then. A
/// database that is wedged takes none, a full one takes none that grow it. A
/// request with a key is answered as before where its outcome is kept, and
/// waits while it is being worked on.
pub open spec fn gated(
    wedged: Option<Seq<char>>,
    full: Option<RefusalV>,
    method: Seq<char>,
    route: Seq<char>,
    key: Option<Seq<char>>,
    kept: Seq<StoredV>,
    window: int,
    flying: Seq<(Seq<char>, u64)>,
    now: i64,
    tick: u64,
) -> (GateV, Seq<(Seq<char>, u64)>) {
    if wedged is Some {
        (Gate::Refused(wedged_message(wedged->0)), flying)
    } else if full is Some && grows(route) {
        (Gate::Refused(full->0), flying)
    } else if key is None {
        (Gate::Run { key: None }, flying)
    } else {
        let k = kept_under(method, route, key->0);
        match live_response(kept, window, k, now) {
            Some(e) => (Gate::Replay { code: e.code, body: e.body }, flying),
            None => {
                let live = flying.filter(registry::current(tick));
                if registry::has_key(live, k) {
                    (Gate::Refused(busy_message()), live)
                } else {
                    (Gate::Run { key: Some(k) }, live.push((k, tick)))
                }
            },
        }
    }
}

/// The outcome that is kept under a key, while its time is not over.
pub open spec fn live_response(kept: Seq<StoredV>, window: int, key: Seq<char>, now: i64) -> Option<
    StoredV,
> {
    match store::find(kept, key) {
        Some(e) => if now - e.at > window {
            None
        } else {
            Some(e)
        },
        None => None,
    }
}

/// Decides what becomes of a change. `now` is the time in milliseconds, `tick`
/// that of a clock that only goes forward.
pub fn gate_write(
    wedged: Option<&str>,
    full: Option<Refusal>,
    method: &str,
    route: &str,
    key: Option<&str>,
    kept: &IdemStore,
    flying: &mut Inflight,
    now: i64,
    tick: u64,
) -> (res: GateX)
    ensures
        (gate_view(res), final(flying)@) == gated(
            graph::str_view(wedged),
            refusal_view(full),
            method@,
            route@,
            graph::str_view(key),
            kept@,
            kept.window_of(),
            old(flying)@,
            now,
            tick,
        ),
{
    match wedged {
        Some(w) => {
            return Gate::Refused(wedged_refusal(w));
        },
        None => {},
    }
    if needs_room(route) {
        match full {
            Some(r) => {
                return Gate::Refused(r);
            },
            None => {},
        }
    }
    let key = match key {
        Some(k) => cache_key(method, route, k),
        None => {
            return Gate::Run { key: None };
        },
    };
    match kept.get(key.as_str(), now) {
        Some((code, body)) => {
            return Gate::Replay { code, body };
        },
        None => {},
    }
    if flying.begin(key.as_str(), tick) {
        Gate::Run { key: Some(key) }
    } else {
        Gate::Refused(in_flight())
    }
}

/// The line of the log of outcomes that is to be written for an outcome: none
/// where the server failed. It is written before the answer is sent.
pub fn outcome_line(key: &str, code: u16, body: &str, now: i64) -> (res: Option<String>)
    ensures
        match res {
            Some(line) => code < 500 && line@ == json::json_text(
                store::stored_json(StoredV { key: key@, code, body: body@, at: now }),
            ),
            None => code >= 500,
        },
{
    if !is_final(code) {
        return None;
    }
    let e = Stored { key: key.to_owned(), code, body: body.to_owned(), at: now };
    Some(stored_line(&e))
}

/// The outcomes that are kept after one more change.
pub open spec fn settled(
    kept: Seq<StoredV>,
    cap: nat,
    key: Seq<char>,
    code: u16,
    body: Seq<char>,
    now: i64,
) -> Seq<StoredV> {
    if code < 500 {
        store::latest(store::stored(kept, StoredV { key, code, body, at: now }), cap)
    } else {
        kept
    }
}

/// Keeps the outcome of a change, unless the server failed or the line for it
/// could not be written, and ends its request. Returns whether the log of
/// outcomes is to be written anew.
pub fn settle_write(
    kept: &mut IdemStore,
    flying: &mut Inflight,
    key: &str,
    code: u16,
    body: &str,
    now: i64,
    written: bool,
) -> (res: bool)
    requires
        old(kept).wf(),
    ensures
        final(kept).wf(),
        final(kept)@ == (if written {
            settled(old(kept)@, old(kept).cap_of(), key@, code, body@, now)
        } else {
            old(kept)@
        }),
        final(kept).like(old(kept)),
        final(flying)@ == old(flying)@.filter(registry::other_key(key@)),
        res == (written && code < 500 && old(kept).is_durable() && store::overgrown(
            final(kept).lines_of(),
            old(kept).cap_of(),
        )),
{
    flying.end(key);
    if !is_final(code) || !written {
        return false;
    }
    kept.put(Stored { key: key.to_owned(), code, body: body.to_owned(), at: now })
}

/// A repeated request is answered as it was: once an outcome is kept, the same
/// request does not run again while the outcome's time is not over.
pub proof fn repeated_request_is_replayed(
    kept: Seq<StoredV>,
    cap: nat,
    window: int,
    method: Seq<char>,
    route: Seq<char>,
    key: Seq<char>,
    code: u16,
    body: Seq<char>,
    at: i64,
    flying: Seq<(Seq<char>, u64)>,
    now: i64,
    tick: u64,
)
    requires
        store::keys_distinct(kept),
        kept.len() <= cap,
        cap > 0,
        code < 500,
        now - at <= window,
    ensures
        gated(
            None,
            None,
            method,
            route,
            Some(key),
            settled(kept, cap, kept_under(method, route, key), code, body, at),
            window,
            flying,
            now,
            tick,
        ).0 == (Gate::<RefusalV, Seq<char>>::Replay { code, body }),
{
    let k = kept_under(method, route, key);
    store::stored_response_is_found(kept, StoredV { key: k, code, body, at }, cap);
}

/// A request does not run twice at once: while one is being worked on, the same
/// request is refused.
pub proof fn running_request_is_not_run_again(
    kept: Seq<StoredV>,
    window: int,
    method: Seq<char>,
    route: Seq<char>,
    key: Seq<char>,
    flying: Seq<(Seq<char>, u64)>,
    at: u64,
    now: i64,
    tick: u64,
)
    requires
        live_response(kept, window, kept_under(method, route, key), now) is None,
        tick - at < registry::INFLIGHT_STALE_MS,
    ensures
        gated(
            None,
            None,
            method,
            route,
            Some(key),
            kept,
            window,
            flying.push((kept_under(method, route, key), at)),
            now,
            tick,
        ).0 == Gate::<RefusalV, Seq<char>>::Refused(busy_message()),
{
    let k = kept_under(method, route, key);
    let all = flying.push((k, at));
    let p = registry::current(tick);
    crate::query::lemma_filter_members(all, p);
    assert(all[flying.len() as int] == (k, at));
    assert(all.contains((k, at)));
    let live = all.filter(p);
    let i = live.index_of((k, at));
    assert(live[i].0 == k);
}

/// A database that is full still takes every change but ingestion, so that there
/// is a way back under its quota.
pub proof fn full_database_takes_all_but_ingestion(
    wedged: Option<Seq<char>>,
    full: RefusalV,
    method: Seq<char>,
    route: Seq<char>,
    key: Option<Seq<char>>,
    kept: Seq<StoredV>,
    window: int,
    flying: Seq<(Seq<char>, u64)>,
    now: i64,
    tick: u64,
)
    requires
        route != "/ingest"@,
    ensures
        gated(wedged, Some(full), method, route, key, kept, window, flying, now, tick) == gated(
            wedged,
            None,
            method,
            route,
            key,
            kept,
            window,
            flying,
            now,
            tick,
        ),
{
}

/// A database whose log could not be written takes no change at all.
pub proof fn wedged_database_takes_no_change(
    err: Seq<char>,
    full: Option<RefusalV>,
    method: Seq<char>,
    route: Seq<char>,
    key: Option<Seq<char>>,
    kept: Seq<StoredV>,
    window: int,
    flying: Seq<(Seq<char>, u64)>,
    now: i64,
    tick: u64,
)
    ensures
        gated(Some(err), full, method, route, key, kept, window, flying, now, tick) matches (
            Gate::Refused(r),
            f,
        ) && r.code == 503 && f == flying,
{
}

/// A change that failed may be tried again: nothing is kept of it, and it is not
/// being worked on any more.
pub proof fn failed_change_may_be_tried_again(
    kept: Seq<StoredV>,
    cap: nat,
    window: int,
    method: Seq<char>,
    route: Seq<char>,
    key: Seq<char>,
    flying: Seq<(Seq<char>, u64)>,
    code: u16,
    body: Seq<char>,
    at: i64,
    now: i64,
    tick: u64,
)
    requires
        code >= 500,
        live_response(kept, window, kept_under(method, route, key), now) is None,
    ensures
        gated(
            None,
            None,
            method,
            route,
            Some(key),
            settled(kept, cap, kept_under(method, route, key), code, body, at),
            window,
            flying.filter(registry::other_key(kept_under(method, route, key))),
            now,
            tick,
        ).0 == (Gate::<RefusalV, Seq<char>>::Run { key: Some(kept_under(method, route, key)) }),
{
    let k = kept_under(method, route, key);
    let p = registry::other_key(k);
    let q = registry::current(tick);
    let rest = flying.filter(p);
    let live = rest.filter(q);
    crate::query::lemma_filter_members(flying, p);
    crate::query::lemma_filter_members(rest, q);
    if registry::has_key(live, k) {
        let i = choose|i: int| 0 <= i < live.len() && (#[trigger] live[i]).0 == k;
        assert(rest.contains(live[i]));
        let j = rest.index_of(live[i]);
        assert(p(rest[j]));
    }
}

} // verus!
