//! A read-only replica that follows a primary by copying its log.

use crate::access::{refuse, Refusal, RefusalV, Scope, ScopeV, Verb};
use crate::api;
use crate::api::{DbPlan, DbPlanV, DbPlanX};
use crate::text;
use crate::text::{after_prefix, same_text};
use vstd::prelude::*;

verus! {

/// How many bytes before its end a replica fetches again, to see that the
/// primary still has the log that it copied.
pub const OVERLAP: usize = 64;

/// Where the next fetch of a replica that holds so many bytes begins.
pub open spec fn resume_at(held: nat) -> nat {
    if held > OVERLAP {
        (held - OVERLAP) as nat
    } else {
        0
    }
}

/// Where the next fetch of a replica begins.
pub fn fetch_from(held: usize) -> (res: usize)
    ensures
        res == resume_at(held as nat),
{
    if held > OVERLAP {
        held - OVERLAP
    } else {
        0
    }
}

/// What a primary sends of its log: the bytes from an offset on, and nothing
/// where the log does not reach that far.
pub open spec fn tail(log: Seq<u8>, offset: nat) -> Option<Seq<u8>> {
    if offset <= log.len() {
        Some(log.skip(offset as int))
    } else {
        None
    }
}

pub open spec fn bytes_view(b: Option<Vec<u8>>) -> Option<Seq<u8>> {
    match b {
        Some(v) => Some(v@),
        None => None,
    }
}

/// What a primary sends of its log.
pub fn tail_of(log: &Vec<u8>, offset: u64) -> (res: Option<Vec<u8>>)
    ensures
        bytes_view(res) == tail(log@, offset as nat),
{
    if offset > log.len() as u64 {
        return None;
    }
    let mut out: Vec<u8> = Vec::new();
    let mut i: usize = offset as usize;
    while i < log.len()
        invariant
            offset <= i <= log.len(),
            out@ == log@.subrange(offset as int, i as int),
        decreases log.len() - i,
    {
        out.push(log[i]);
        i += 1;
        assert(log@.subrange(offset as int, i as int) =~= log@.subrange(
            offset as int,
            i - 1,
        ).push(log@[i - 1]));
    }
    assert(log@.subrange(offset as int, log@.len() as int) =~= log@.skip(offset as int));
    Some(out)
}

/// What a replica holds after a fetch from `resume_at`: the copy, grown by what
/// follows the bytes that it has, and nothing where those bytes are not the
/// primary's any more. Then it starts again from the beginning.
pub open spec fn followed(held: Seq<u8>, fetched: Option<Seq<u8>>) -> Option<Seq<u8>> {
    match fetched {
        Some(f) => {
            let window = held.skip(resume_at(held.len()) as int);
            if window.is_prefix_of(f) {
                Some(held + f.skip(window.len() as int))
            } else {
                None
            }
        },
        None => None,
    }
}

/// What is to be appended to a replica's log after a fetch, or that the copy
/// has to be made anew.
pub fn follow(held: &Vec<u8>, fetched: Option<&Vec<u8>>) -> (res: Option<Vec<u8>>)
    ensures
        match res {
            Some(more) => followed(
                held@,
                match fetched {
                    Some(f) => Some(f@),
                    None => None,
                },
            ) == Some(held@ + more@),
            None => followed(
                held@,
                match fetched {
                    Some(f) => Some(f@),
                    None => None,
                },
            ) is None,
        },
{
    let f = match fetched {
        Some(f) => f,
        None => {
            return None;
        },
    };
    let from = fetch_from(held.len());
    let n: usize = held.len() - from;
    let ghost window = held@.skip(from as int);
    if f.len() < n {
        return None;
    }
    let mut i: usize = 0;
    while i < n
        invariant
            i <= n <= f.len(),
            n == held.len() - from,
            from <= held.len(),
            from == resume_at(held@.len()),
            fetched == Some(f),
            window == held@.skip(from as int),
            forall|k: int| 0 <= k < i ==> f@[k] == window[k],
        decreases n - i,
    {
        if f[i] != held[from + i] {
            assert(f@.subrange(0, window.len() as int)[i as int] != window[i as int]);
            return None;
        }
        i += 1;
    }
    assert(window =~= f@.take(n as int));
    assert(window.is_prefix_of(f@));
    tail_of(f, n as u64)
}

/// A standby is an exact copy: where the replica holds what the primary's log
/// begins with, a fetch makes it the primary's log, byte for byte.
pub proof fn replica_is_a_copy(primary: Seq<u8>, held: Seq<u8>)
    requires
        held.is_prefix_of(primary),
    ensures
        followed(held, tail(primary, resume_at(held.len()))) == Some(primary),
{
    let from = resume_at(held.len()) as int;
    let f = primary.skip(from);
    let window = held.skip(from);
    assert(window =~= f.take(window.len() as int));
    assert(held + f.skip(window.len() as int) =~= primary);
}

/// A replica that starts from nothing gets the whole log in one fetch: copying
/// again makes up for every divergence.
pub proof fn copying_again_gives_the_log(primary: Seq<u8>)
    ensures
        followed(Seq::empty(), tail(primary, 0)) == Some(primary),
{
    assert(Seq::<u8>::empty().is_prefix_of(primary));
    replica_is_a_copy(primary, Seq::empty());
}

/// A divergence is detected: where the primary's log is shorter than the copy,
/// or differs from it in the last bytes that the replica holds, nothing is
/// appended.
pub proof fn divergence_is_detected(primary: Seq<u8>, held: Seq<u8>, at: int)
    requires
        primary.len() < held.len() || (resume_at(held.len()) <= at < held.len() && primary[at]
            != held[at]),
    ensures
        followed(held, tail(primary, resume_at(held.len()))) is None,
{
    let from = resume_at(held.len()) as int;
    let window = held.skip(from);
    if from <= primary.len() {
        let f = primary.skip(from);
        if window.is_prefix_of(f) {
            assert(window[at - from] == f.take(window.len() as int)[at - from]);
        }
    }
}

/// What is copied is only ever added to: bytes that a replica appended stay
/// where they are.
pub proof fn following_only_appends(held: Seq<u8>, fetched: Option<Seq<u8>>)
    ensures
        followed(held, fetched) matches Some(grown) ==> held.is_prefix_of(grown),
{
    match followed(held, fetched) {
        Some(grown) => {
            assert(grown.take(held.len() as int) =~= held);
        },
        None => {},
    }
}

/// What a replica asks a primary for. `R` is a refusal.
pub enum Shipment<R> {
    /// It is no such request.
    Other,
    Refused(R),
    /// The log from an offset on.
    Tail { offset: u64 },
    /// What was learned.
    Sidecar,
}

pub open spec fn shipment_view(s: Shipment<Refusal>) -> Shipment<RefusalV> {
    match s {
        Shipment::Other => Shipment::Other,
        Shipment::Refused(r) => Shipment::Refused(r@),
        Shipment::Tail { offset } => Shipment::Tail { offset },
        Shipment::Sidecar => Shipment::Sidecar,
    }
}

/// The routes that ship a log. They show raw facts, so a token that may only
/// read is denied them.
pub open spec fn shipped(scope: ScopeV, verb: Verb, route: Seq<char>) -> Shipment<RefusalV> {
    let is_tail = "/wal/tail/"@.is_prefix_of(route);
    if verb != Verb::Get || !(is_tail || route == "/wal/sidecar"@) {
        Shipment::Other
    } else if scope == ScopeV::Read {
        Shipment::Refused(RefusalV { code: 403, message: "write scope required"@ })
    } else if is_tail {
        match text::parse_unsigned(route.skip("/wal/tail/"@.len() as int)) {
            Some(n) if n <= u64::MAX => Shipment::Tail { offset: n as u64 },
            _ => Shipment::Refused(RefusalV { code: 400, message: "bad offset"@ }),
        }
    } else {
        Shipment::Sidecar
    }
}

/// What a replica asks for with a request.
pub fn plan_shipment(scope: &Scope, verb: Verb, route: &str) -> (res: Shipment<Refusal>)
    ensures
        shipment_view(res) == shipped(scope@, verb, route@),
{
    let rest = after_prefix(route, "/wal/tail/");
    if verb != Verb::Get || !(rest.is_some() || same_text(route, "/wal/sidecar")) {
        return Shipment::Other;
    }
    if !scope.can_write() {
        return Shipment::Refused(refuse(403, "write scope required"));
    }
    match rest {
        Some(digits) => match text::read_unsigned(digits.as_str(), u64::MAX) {
            Some(n) => Shipment::Tail { offset: n },
            None => Shipment::Refused(refuse(400, "bad offset")),
        },
        None => Shipment::Sidecar,
    }
}

/// What a standby answers every change with.
pub open spec fn read_only() -> RefusalV {
    RefusalV { code: 503, message: "standby is read-only; send writes to the primary"@ }
}

/// What a standby does with a request: it serves what leaves the database as it
/// is, and refuses the rest.
pub open spec fn on_standby(plan: DbPlanV) -> DbPlanV {
    match plan {
        DbPlan::Write => DbPlan::Refused(read_only()),
        DbPlan::Retrieve(r) => if r.adapt || r.trace {
            DbPlan::Refused(read_only())
        } else {
            plan
        },
        _ => plan,
    }
}

/// What a standby does with a request.
pub fn for_standby(plan: DbPlanX) -> (res: DbPlanX)
    ensures
        api::plan_view(res) == on_standby(api::plan_view(plan)),
{
    let changes = match &plan {
        DbPlan::Write => true,
        DbPlan::Retrieve(r) => r.adapt || r.trace,
        _ => false,
    };
    if changes {
        DbPlan::Refused(refuse(503, "standby is read-only; send writes to the primary"))
    } else {
        plan
    }
}

} // verus!
