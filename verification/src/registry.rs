//! The open databases of a server: which one a request gets, which one makes
//! room, and how much they may take.

use crate::access;
use crate::access::{refuse, valid_db_name, Refusal, RefusalV, DEFAULT_DB};
use crate::graph;
use crate::names;
use crate::store::wedge;
use crate::text;
use crate::text::{cat3, cat5, decimal_text, same_text, text_less};
use vstd::prelude::*;

verus! {

/// An open database, as it stands when a decision is made.
pub struct OpenDb {
    pub name: String,
    /// When it was used last.
    pub last_used: u64,
    /// Whether no request holds it.
    pub idle: bool,
    /// What it takes; nothing is known while it is being written to.
    pub bytes: Option<usize>,
}

/// The mathematical form of an [`OpenDb`].
pub struct OpenDbV {
    pub name: Seq<char>,
    pub last_used: u64,
    pub idle: bool,
    pub bytes: Option<usize>,
}

impl View for OpenDb {
    type V = OpenDbV;

    open spec fn view(&self) -> OpenDbV {
        OpenDbV {
            name: self.name@,
            last_used: self.last_used,
            idle: self.idle,
            bytes: self.bytes,
        }
    }
}

pub open spec fn db_views(dbs: Seq<OpenDb>) -> Seq<OpenDbV> {
    dbs.map_values(|d: OpenDb| d@)
}

/// The idle database among the first `n` that was used least recently.
pub open spec fn victim(dbs: Seq<OpenDbV>, n: int) -> Option<int>
    decreases n,
{
    if n <= 0 {
        None
    } else {
        let before = victim(dbs, n - 1);
        if dbs[n - 1].idle && (before matches Some(b) ==> dbs[n - 1].last_used < dbs[b].last_used) {
            Some(n - 1)
        } else {
            before
        }
    }
}

/// The database that makes room is idle, and no idle one was used less
/// recently; there is one wherever a database is idle.
pub proof fn victim_is_least_recently_used(dbs: Seq<OpenDbV>, n: int)
    requires
        0 <= n <= dbs.len(),
    ensures
        match victim(dbs, n) {
            Some(v) => {
                &&& 0 <= v < n
                &&& dbs[v].idle
                &&& forall|i: int|
                    0 <= i < n && (#[trigger] dbs[i]).idle ==> dbs[v].last_used <= dbs[i].last_used
            },
            None => forall|i: int| 0 <= i < n ==> !(#[trigger] dbs[i]).idle,
        },
    decreases n,
{
    if n > 0 {
        victim_is_least_recently_used(dbs, n - 1);
    }
}

fn find_victim(dbs: &Vec<OpenDb>) -> (res: Option<usize>)
    ensures
        match res {
            Some(i) => i < dbs@.len() && victim(db_views(dbs@), dbs@.len() as int) == Some(
                i as int,
            ),
            None => victim(db_views(dbs@), dbs@.len() as int) is None,
        },
{
    let ghost vs = db_views(dbs@);
    let mut best: Option<usize> = None;
    let mut i: usize = 0;
    while i < dbs.len()
        invariant
            i <= dbs@.len(),
            vs == db_views(dbs@),
            match best {
                Some(b) => b < i && victim(vs, i as int) == Some(b as int),
                None => victim(vs, i as int) is None,
            },
        decreases dbs@.len() - i,
    {
        assert(vs[i as int] == dbs@[i as int]@);
        if dbs[i].idle {
            match best {
                Some(b) => {
                    assert(vs[b as int] == dbs@[b as int]@);
                    if dbs[i].last_used < dbs[b].last_used {
                        best = Some(i);
                    }
                },
                None => {
                    best = Some(i);
                },
            }
        }
        i += 1;
    }
    best
}

/// What the databases take together.
pub open spec fn total_bytes(dbs: Seq<OpenDbV>) -> nat
    decreases dbs.len(),
{
    if dbs.len() == 0 {
        0
    } else {
        total_bytes(dbs.drop_last()) + match dbs.last().bytes {
            Some(n) => n as nat,
            None => 0,
        }
    }
}

/// What the databases take together, as far as it is known; the largest number
/// where it is past that.
pub open spec fn used(dbs: Seq<OpenDbV>) -> u64 {
    if total_bytes(dbs) <= u64::MAX {
        total_bytes(dbs) as u64
    } else {
        u64::MAX
    }
}

/// What the databases take together.
pub fn open_bytes(dbs: &Vec<OpenDb>) -> (res: u64)
    ensures
        res == used(db_views(dbs@)),
{
    let ghost vs = db_views(dbs@);
    let mut total: u128 = 0;
    let mut i: usize = 0;
    assert(vs.take(0) =~= Seq::empty());
    while i < dbs.len()
        invariant
            i <= dbs@.len(),
            vs == db_views(dbs@),
            total == total_bytes(vs.take(i as int)),
            total <= i * 0xffff_ffff_ffff_ffff,
        decreases dbs@.len() - i,
    {
        assert(vs.take(i + 1).drop_last() =~= vs.take(i as int));
        assert(vs.take(i + 1).last() == dbs@[i as int]@);
        match dbs[i].bytes {
            Some(n) => {
                total = total + n as u128;
            },
            None => {},
        }
        i += 1;
    }
    assert(vs.take(vs.len() as int) =~= vs);
    if total <= u64::MAX as u128 {
        total as u64
    } else {
        u64::MAX
    }
}

/// The databases that are closed, in order, until what is open fits a budget
/// or none is idle.
pub open spec fn evictions(dbs: Seq<OpenDbV>, budget: u64) -> Seq<Seq<char>>
    decreases dbs.len(),
{
    if used(dbs) <= budget {
        Seq::empty()
    } else {
        match victim(dbs, dbs.len() as int) {
            Some(v) => if 0 <= v < dbs.len() {
                seq![dbs[v].name] + evictions(dbs.remove(v), budget)
            } else {
                Seq::empty()
            },
            None => Seq::empty(),
        }
    }
}

/// The names of the databases to close, in order, until what is open fits a
/// budget or none is idle.
pub fn evict_until(dbs: Vec<OpenDb>, budget: u64) -> (res: Vec<String>)
    ensures
        text::views(res@) == evictions(db_views(dbs@), budget),
{
    let ghost all = evictions(db_views(dbs@), budget);
    let mut left = dbs;
    let mut out: Vec<String> = Vec::new();
    assert(text::views(out@) + evictions(db_views(left@), budget) =~= all);
    while open_bytes(&left) > budget
        invariant
            all == evictions(db_views(dbs@), budget),
            text::views(out@) + evictions(db_views(left@), budget) == all,
        decreases left@.len(),
    {
        let ghost vs = db_views(left@);
        match find_victim(&left) {
            Some(v) => {
                let ghost o = text::views(out@);
                let db = left.remove(v);
                assert(db@ == vs[v as int]);
                assert(db_views(left@) =~= vs.remove(v as int));
                proof {
                    crate::query::lemma_views_push(out@, db.name);
                }
                out.push(db.name);
                assert(text::views(out@) + evictions(db_views(left@), budget) =~= o + (
                seq![db.name@] + evictions(vs.remove(v as int), budget)));
            },
            None => {
                assert(text::views(out@) =~= all);
                return out;
            },
        }
    }
    assert(text::views(out@) =~= all);
    out
}

/// Only idle databases are closed, and no more than are open.
pub proof fn eviction_spares_the_busy(dbs: Seq<OpenDbV>, budget: u64, i: int)
    requires
        0 <= i < evictions(dbs, budget).len(),
    ensures
        exists|j: int|
            0 <= j < dbs.len() && (#[trigger] dbs[j]).idle && dbs[j].name == evictions(
                dbs,
                budget,
            )[i],
        evictions(dbs, budget).len() <= dbs.len(),
    decreases dbs.len(),
{
    victim_is_least_recently_used(dbs, dbs.len() as int);
    let v = victim(dbs, dbs.len() as int)->0;
    let rest = dbs.remove(v);
    let later = evictions(rest, budget);
    if i == 0 {
        assert(dbs[v].name == evictions(dbs, budget)[0]);
        if later.len() > 0 {
            eviction_spares_the_busy(rest, budget, 0);
        }
    } else {
        eviction_spares_the_busy(rest, budget, i - 1);
        let j = choose|j: int|
            0 <= j < rest.len() && (#[trigger] rest[j]).idle && rest[j].name == later[i - 1];
        let k = if j < v {
            j
        } else {
            j + 1
        };
        assert(dbs[k] == rest[j]);
    }
}

/// How a database that a request addresses is found.
pub enum Lookup {
    Refused(Refusal),
    /// It is open.
    Open,
    /// The one database of a server without a root.
    Files,
    /// The directory of its name, which may have to be created.
    Dir { create: bool },
}

/// The mathematical form of a [`Lookup`].
pub enum LookupV {
    Refused(RefusalV),
    Open,
    Files,
    Dir { create: bool },
}

impl View for Lookup {
    type V = LookupV;

    open spec fn view(&self) -> LookupV {
        match *self {
            Lookup::Refused(r) => LookupV::Refused(r@),
            Lookup::Open => LookupV::Open,
            Lookup::Files => LookupV::Files,
            Lookup::Dir { create } => LookupV::Dir { create },
        }
    }
}

/// How a database is found. The default database is created on demand, others
/// on request.
pub open spec fn found(
    name: Seq<char>,
    create: bool,
    is_open: bool,
    multi: bool,
    dir_exists: bool,
) -> LookupV {
    if !access::is_db_name(name) {
        LookupV::Refused(
            RefusalV {
                code: 400,
                message: "invalid db name '"@ + name + "' (want [a-z0-9_-]{1,64})"@,
            },
        )
    } else if is_open {
        LookupV::Open
    } else if !multi {
        if name == DEFAULT_DB@ {
            LookupV::Files
        } else {
            LookupV::Refused(
                RefusalV {
                    code: 400,
                    message: "multi-database mode requires the server to run with --data-dir"@,
                },
            )
        }
    } else if dir_exists {
        LookupV::Dir { create: false }
    } else if create || name == DEFAULT_DB@ {
        LookupV::Dir { create: true }
    } else {
        LookupV::Refused(
            RefusalV {
                code: 404,
                message: "unknown db '"@ + name + "' (create it with POST /db/"@ + name + ")"@,
            },
        )
    }
}

/// How a database that a request addresses is found.
pub fn resolve(name: &str, create: bool, is_open: bool, multi: bool, dir_exists: bool) -> (res: Lookup)
    ensures
        res@ == found(name@, create, is_open, multi, dir_exists),
{
    if !valid_db_name(name) {
        let m = cat3("invalid db name '", name, "' (want [a-z0-9_-]{1,64})");
        Lookup::Refused(Refusal { code: 400, message: m })
    } else if is_open {
        Lookup::Open
    } else if !multi {
        if same_text(name, DEFAULT_DB) {
            Lookup::Files
        } else {
            Lookup::Refused(
                refuse(400, "multi-database mode requires the server to run with --data-dir"),
            )
        }
    } else if dir_exists {
        Lookup::Dir { create: false }
    } else if create || same_text(name, DEFAULT_DB) {
        Lookup::Dir { create: true }
    } else {
        let m = cat5("unknown db '", name, "' (create it with POST /db/", name, ")");
        Lookup::Refused(Refusal { code: 404, message: m })
    }
}

/// Which database makes room for another: none while there is room.
pub open spec fn room(dbs: Seq<OpenDbV>, max_open: usize) -> Result<Option<Seq<char>>, RefusalV> {
    if dbs.len() < max_open {
        Ok(None)
    } else {
        match victim(dbs, dbs.len() as int) {
            Some(v) => Ok(Some(dbs[v].name)),
            None => Err(
                RefusalV {
                    code: 503,
                    message: "open database limit reached ("@ + text::decimal(max_open as nat)
                        + ") and none are idle"@,
                },
            ),
        }
    }
}

/// Which database makes room for another.
pub fn make_room(dbs: &Vec<OpenDb>, max_open: usize) -> (res: Result<Option<String>, Refusal>)
    ensures
        match res {
            Ok(n) => room(db_views(dbs@), max_open) == Ok::<Option<Seq<char>>, RefusalV>(
                crate::graph::label_view(n),
            ),
            Err(e) => room(db_views(dbs@), max_open) == Err::<Option<Seq<char>>, RefusalV>(e@),
        },
{
    if dbs.len() < max_open {
        return Ok(None);
    }
    match find_victim(dbs) {
        Some(v) => {
            assert(db_views(dbs@)[v as int] == dbs@[v as int]@);
            Ok(Some(dbs[v].name.clone()))
        },
        None => {
            let n = decimal_text(max_open as u64);
            let m = cat3("open database limit reached (", n.as_str(), ") and none are idle");
            Err(Refusal { code: 503, message: m })
        },
    }
}

/// What a database takes: its graph, and thirty-three bytes of learned state
/// for each edge.
pub open spec fn footprint(graph_bytes: nat, edges: nat) -> nat {
    names::saturating(graph_bytes, edges * 33)
}

/// What a database takes.
pub fn engine_bytes(graph_bytes: usize, edges: usize) -> (res: usize)
    ensures
        res == footprint(graph_bytes as nat, edges as nat),
{
    if edges > (usize::MAX - graph_bytes) / 33 {
        usize::MAX
    } else {
        graph_bytes + edges * 33
    }
}

/// Whether a database is past its limits; 0 is no limit.
pub open spec fn over_quota(bytes: usize, edges: usize, max_bytes: usize, max_edges: usize) -> Option<
    RefusalV,
> {
    if max_bytes > 0 && bytes >= max_bytes {
        Some(
            RefusalV {
                code: 507,
                message: "database over size quota ("@ + text::decimal(bytes as nat) + " >= "@
                    + text::decimal(max_bytes as nat)
                    + " bytes); checkpoint/purge to reclaim, or raise --max-db-mb"@,
            },
        )
    } else if max_edges > 0 && edges >= max_edges {
        Some(
            RefusalV {
                code: 507,
                message: "database over edge quota ("@ + text::decimal(edges as nat) + " >= "@
                    + text::decimal(max_edges as nat)
                    + "); checkpoint/purge to reclaim, or raise --max-db-edges"@,
            },
        )
    } else {
        None
    }
}

/// Whether a database is past its limits.
pub fn check_quota(bytes: usize, edges: usize, max_bytes: usize, max_edges: usize) -> (res: Option<
    Refusal,
>)
    ensures
        match res {
            Some(r) => over_quota(bytes, edges, max_bytes, max_edges) == Some(r@),
            None => over_quota(bytes, edges, max_bytes, max_edges) is None,
        },
{
    if max_bytes > 0 && bytes >= max_bytes {
        let m = cat5(
            "database over size quota (",
            decimal_text(bytes as u64).as_str(),
            " >= ",
            decimal_text(max_bytes as u64).as_str(),
            " bytes); checkpoint/purge to reclaim, or raise --max-db-mb",
        );
        Some(Refusal { code: 507, message: m })
    } else if max_edges > 0 && edges >= max_edges {
        let m = cat5(
            "database over edge quota (",
            decimal_text(edges as u64).as_str(),
            " >= ",
            decimal_text(max_edges as u64).as_str(),
            "); checkpoint/purge to reclaim, or raise --max-db-edges",
        );
        Some(Refusal { code: 507, message: m })
    } else {
        None
    }
}

/// Whether databases that take this much leave no room for more; 0 is no
/// limit.
pub fn over_budget(used: u64, budget: usize) -> (res: bool)
    ensures
        res == (budget > 0 && used >= budget),
{
    budget > 0 && used >= budget as u64
}

/// The refusal of a server that could not make room.
pub fn shed(used: u64, budget: usize) -> (res: Refusal)
    ensures
        res@ == (RefusalV {
            code: 429,
            message: "server over memory budget ("@ + text::decimal(used as nat) + " >= "@
                + text::decimal(budget as nat)
                + " bytes) and no idle databases to evict; ingest shed"@,
        }),
{
    let m = cat5(
        "server over memory budget (",
        decimal_text(used).as_str(),
        " >= ",
        decimal_text(budget as u64).as_str(),
        " bytes) and no idle databases to evict; ingest shed",
    );
    Refusal { code: 429, message: m }
}

/// The refusal to drop a database that requests hold.
pub fn busy() -> (res: Refusal)
    ensures
        res@ == (RefusalV {
            code: 409,
            message: "database busy (requests in flight); retry"@,
        }),
{
    refuse(409, "database busy (requests in flight); retry")
}

/// Names in ascending order, with one more.
pub open spec fn placed(s: Seq<Seq<char>>, x: Seq<char>) -> Seq<Seq<char>>
    decreases s.len(),
{
    if s.len() == 0 {
        seq![x]
    } else if s.last() == x {
        s
    } else if text::text_lt(s.last(), x) {
        s.push(x)
    } else {
        placed(s.drop_last(), x).push(s.last())
    }
}

/// Names in ascending order, each once.
pub open spec fn sorted_names(s: Seq<Seq<char>>) -> Seq<Seq<char>>
    decreases s.len(),
{
    if s.len() == 0 {
        s
    } else {
        placed(sorted_names(s.drop_last()), s.last())
    }
}

pub open spec fn ascending_names(s: Seq<Seq<char>>) -> bool {
    forall|i: int, j: int| 0 <= i < j < s.len() ==> text::text_lt(#[trigger] s[i], #[trigger] s[j])
}

proof fn lemma_placed(s: Seq<Seq<char>>, x: Seq<char>)
    requires
        ascending_names(s),
    ensures
        ascending_names(placed(s, x)),
        forall|y: Seq<char>| #[trigger] placed(s, x).contains(y) == (s.contains(y) || y == x),
    decreases s.len(),
{
    let p = placed(s, x);
    if s.len() == 0 {
        assert(p[0] == x);
        assert forall|y: Seq<char>| #[trigger] p.contains(y) == (s.contains(y) || y == x) by {
            if y == x {
                assert(p[0] == y);
            }
        }
    } else if s.last() == x {
        assert(s[s.len() - 1] == x);
    } else if text::text_lt(s.last(), x) {
        assert forall|i: int, j: int| 0 <= i < j < p.len() implies text::text_lt(
            #[trigger] p[i],
            #[trigger] p[j],
        ) by {
            if j == s.len() {
                if i < s.len() - 1 {
                    assert(text::text_lt(s[i], s[s.len() - 1]));
                    text::lemma_text_lt_trans(s[i], s.last(), x);
                }
            } else {
                assert(text::text_lt(s[i], s[j]));
            }
        }
        assert forall|y: Seq<char>| #[trigger] p.contains(y) == (s.contains(y) || y == x) by {
            if s.contains(y) {
                assert(p[s.index_of(y)] == y);
            }
            if y == x {
                assert(p[s.len() as int] == y);
            }
        }
    } else {
        let t = s.drop_last();
        let q = placed(t, x);
        assert(ascending_names(t)) by {
            assert forall|i: int, j: int| 0 <= i < j < t.len() implies text::text_lt(
                #[trigger] t[i],
                #[trigger] t[j],
            ) by {
                assert(text::text_lt(s[i], s[j]));
            }
        }
        lemma_placed(t, x);
        text::lemma_text_lt_total(s.last(), x);
        assert forall|i: int, j: int| 0 <= i < j < p.len() implies text::text_lt(
            #[trigger] p[i],
            #[trigger] p[j],
        ) by {
            if j == q.len() {
                assert(q.contains(q[i]));
                if q[i] != x {
                    assert(t.contains(q[i]));
                    let k = t.index_of(q[i]);
                    assert(text::text_lt(s[k], s[s.len() - 1]));
                }
            } else {
                assert(text::text_lt(q[i], q[j]));
            }
        }
        assert forall|y: Seq<char>| #[trigger] p.contains(y) == (s.contains(y) || y == x) by {
            if q.contains(y) {
                assert(p[q.index_of(y)] == y);
            }
            assert(p[q.len() as int] == s.last());
            if s.contains(y) {
                let k = s.index_of(y);
                if k < t.len() {
                    assert(t[k] == y);
                    assert(t.contains(y));
                }
            }
            if t.contains(y) {
                assert(s[t.index_of(y)] == y);
            }
            assert(s[s.len() - 1] == s.last());
        }
    }
}

/// Sorting names keeps each of them once, in ascending order.
pub proof fn names_are_sorted(s: Seq<Seq<char>>)
    ensures
        ascending_names(sorted_names(s)),
        forall|x: Seq<char>| #[trigger] sorted_names(s).contains(x) == s.contains(x),
    decreases s.len(),
{
    if s.len() > 0 {
        let t = s.drop_last();
        names_are_sorted(t);
        lemma_placed(sorted_names(t), s.last());
        assert forall|x: Seq<char>| #[trigger] sorted_names(s).contains(x) == s.contains(x) by {
            if s.contains(x) {
                let k = s.index_of(x);
                if k < t.len() {
                    assert(t[k] == x);
                    assert(t.contains(x));
                }
            }
            if t.contains(x) {
                assert(s[t.index_of(x)] == x);
            }
            assert(s[s.len() - 1] == s.last());
        }
    }
}

proof fn lemma_placed_at(s: Seq<Seq<char>>, x: Seq<char>, p: int)
    requires
        0 <= p <= s.len(),
        p > 0 ==> text::text_lt(s[p - 1], x) && s[p - 1] != x,
        forall|j: int| p <= j < s.len() ==> (#[trigger] s[j]) != x && !text::text_lt(s[j], x),
    ensures
        placed(s, x) == s.insert(p, x),
    decreases s.len(),
{
    if s.len() == 0 {
        assert(s.insert(p, x) =~= seq![x]);
    } else if p == s.len() {
        assert(s[p - 1] == s.last());
        assert(s.insert(p, x) =~= s.push(x));
    } else {
        assert(s[s.len() - 1] == s.last());
        lemma_placed_at(s.drop_last(), x, p);
        assert(s.drop_last().insert(p, x).push(s.last()) =~= s.insert(p, x));
    }
}

proof fn lemma_placed_there(s: Seq<Seq<char>>, x: Seq<char>, p: int)
    requires
        0 <= p < s.len(),
        s[p] == x,
        forall|j: int| p < j < s.len() ==> (#[trigger] s[j]) != x && !text::text_lt(s[j], x),
    ensures
        placed(s, x) == s,
    decreases s.len(),
{
    if p < s.len() - 1 {
        assert(s[s.len() - 1] == s.last());
        lemma_placed_there(s.drop_last(), x, p);
        assert(s.drop_last().push(s.last()) =~= s);
    }
}

fn place(names: &mut Vec<String>, x: &str)
    ensures
        text::views(final(names)@) == placed(text::views(old(names)@), x@),
{
    let ghost s = text::views(names@);
    let mut p: usize = names.len();
    while p > 0
        invariant
            p <= names@.len(),
            names@ == old(names)@,
            s == text::views(names@),
            forall|j: int|
                p <= j < s.len() ==> (#[trigger] s[j]) != x@ && !text::text_lt(s[j], x@),
        decreases p,
    {
        assert(s[p - 1] == names@[p - 1]@);
        if same_text(names[p - 1].as_str(), x) {
            proof {
                lemma_placed_there(s, x@, p - 1);
            }
            return ;
        }
        if text_less(names[p - 1].as_str(), x) {
            proof {
                lemma_placed_at(s, x@, p as int);
            }
            names.insert(p, x.to_owned());
            assert(text::views(names@) =~= s.insert(p as int, x@));
            return ;
        }
        p -= 1;
    }
    proof {
        lemma_placed_at(s, x@, 0);
    }
    names.insert(0, x.to_owned());
    assert(text::views(names@) =~= s.insert(0, x@));
}

/// The members of `more` that are not there yet, each once, after what is
/// there.
pub open spec fn joined(s: Seq<Seq<char>>, more: Seq<Seq<char>>) -> Seq<Seq<char>>
    decreases more.len(),
{
    if more.len() == 0 {
        s
    } else {
        let before = joined(s, more.drop_last());
        if before.contains(more.last()) {
            before
        } else {
            before.push(more.last())
        }
    }
}

pub open spec fn names_db() -> spec_fn(Seq<char>) -> bool {
    |s: Seq<char>| access::is_db_name(s)
}

/// The databases of a server: those on disk in ascending order, then those
/// that are only open. What is on disk under a name that no database can have
/// is left out.
pub fn list_names(on_disk: &Vec<String>, open: &Vec<String>) -> (res: Vec<String>)
    ensures
        text::views(res@) == joined(
            sorted_names(text::views(on_disk@).filter(names_db())),
            text::views(open@),
        ),
{
    let ghost p = names_db();
    let ghost d = text::views(on_disk@);
    let ghost o = text::views(open@);
    let mut out: Vec<String> = Vec::new();
    let mut i: usize = 0;
    proof {
        reveal(Seq::filter);
        assert(text::views(out@) =~= sorted_names(d.take(0).filter(p)));
    }
    while i < on_disk.len()
        invariant
            i <= on_disk@.len(),
            d == text::views(on_disk@),
            p == names_db(),
            text::views(out@) == sorted_names(d.take(i as int).filter(p)),
        decreases on_disk@.len() - i,
    {
        let ghost done = d.take(i as int).filter(p);
        proof {
            crate::query::lemma_filter_step(d, i as int, p);
            assert(done.push(d[i as int]).drop_last() =~= done);
        }
        if valid_db_name(on_disk[i].as_str()) {
            place(&mut out, on_disk[i].as_str());
        }
        i += 1;
    }
    assert(d.take(d.len() as int) =~= d);
    let ghost base = sorted_names(d.filter(p));
    let mut k: usize = 0;
    assert(o.take(0) =~= Seq::empty());
    while k < open.len()
        invariant
            k <= open@.len(),
            o == text::views(open@),
            text::views(out@) == joined(base, o.take(k as int)),
        decreases open@.len() - k,
    {
        let x = open[k].as_str();
        assert(o.take(k + 1).drop_last() =~= o.take(k as int));
        assert(o.take(k + 1).last() == x@);
        if !holds(&out, x) {
            proof {
                crate::query::lemma_views_push(out@, open@[k as int]);
            }
            out.push(open[k].clone());
        }
        k += 1;
    }
    assert(o.take(o.len() as int) =~= o);
    out
}

fn holds(names: &Vec<String>, x: &str) -> (res: bool)
    ensures
        res == text::views(names@).contains(x@),
{
    let ghost s = text::views(names@);
    let mut i: usize = 0;
    while i < names.len()
        invariant
            i <= names@.len(),
            s == text::views(names@),
            forall|j: int| 0 <= j < i ==> s[j] != x@,
        decreases names@.len() - i,
    {
        assert(s[i as int] == names@[i as int]@);
        if same_text(names[i].as_str(), x) {
            return true;
        }
        i += 1;
    }
    false
}

/// The tasks that a server runs by itself.
#[derive(Debug, Clone, Copy, PartialEq, Eq, Structural)]
pub enum Task {
    Consolidate,
    Sleep,
    Checkpoint,
}

/// What a task is called.
pub open spec fn task_label(task: Task) -> Seq<char> {
    match task {
        Task::Consolidate => "consolidate"@,
        Task::Sleep => "sleep"@,
        Task::Checkpoint => "checkpoint"@,
    }
}

/// What a task is called.
pub fn task_name(task: Task) -> (res: &'static str)
    ensures
        res@ == task_label(task),
{
    match task {
        Task::Consolidate => "consolidate",
        Task::Sleep => "sleep",
        Task::Checkpoint => "checkpoint",
    }
}

/// Whether a task runs on a database: on one that is wedged none does.
pub fn takes_tasks(wedged: &Option<String>) -> (res: bool)
    ensures
        res == (wedged is None),
{
    wedged.is_none()
}

/// Why a database is wedged once a task failed on it. A checkpoint that failed
/// wedges it, and the first reason stays; the other tasks leave it as it was.
pub open spec fn wedged_after(task: Task, wedged: Option<Seq<char>>, err: Seq<char>) -> Option<
    Seq<char>,
> {
    if task == Task::Checkpoint && wedged is None {
        Some(err)
    } else {
        wedged
    }
}

/// Notes that a task failed.
pub fn task_failed(task: Task, wedged: &mut Option<String>, err: &str)
    ensures
        graph::label_view(*final(wedged)) == wedged_after(
            task,
            graph::label_view(*old(wedged)),
            err@,
        ),
{
    match task {
        Task::Checkpoint => wedge(wedged, err),
        _ => {},
    }
}

/// A task, how often it runs, and when it ran last, in milliseconds.
#[derive(Debug, Clone, Copy, PartialEq, Eq, Structural)]
pub struct Scheduled {
    pub task: Task,
    pub every: u64,
    pub last: u64,
}

/// Whether a task is due.
pub open spec fn is_due(now: u64) -> spec_fn(Scheduled) -> bool {
    |s: Scheduled| now - s.last >= s.every
}

pub open spec fn task_of() -> spec_fn(Scheduled) -> Task {
    |s: Scheduled| s.task
}

/// A task that is due has run now.
pub open spec fn ran(now: u64) -> spec_fn(Scheduled) -> Scheduled {
    |s: Scheduled|
        if now - s.last >= s.every {
            Scheduled { last: now, ..s }
        } else {
            s
        }
}

pub open spec fn with_task(s: Seq<Scheduled>, task: Task, every: Option<u64>, now: u64) -> Seq<
    Scheduled,
> {
    match every {
        Some(e) => s.push(Scheduled { task, every: e, last: now }),
        None => s,
    }
}

/// When tasks run.
pub struct Schedule {
    tasks: Vec<Scheduled>,
}

impl View for Schedule {
    type V = Seq<Scheduled>;

    closed spec fn view(&self) -> Seq<Scheduled> {
        self.tasks@
    }
}

impl Schedule {
    /// The tasks that have an interval, which begins now.
    pub fn new(
        consolidate: Option<u64>,
        sleep: Option<u64>,
        checkpoint: Option<u64>,
        now: u64,
    ) -> (res: Self)
        ensures
            res@ == with_task(
                with_task(
                    with_task(Seq::empty(), Task::Consolidate, consolidate, now),
                    Task::Sleep,
                    sleep,
                    now,
                ),
                Task::Checkpoint,
                checkpoint,
                now,
            ),
    {
        let mut tasks: Vec<Scheduled> = Vec::new();
        match consolidate {
            Some(every) => {
                tasks.push(Scheduled { task: Task::Consolidate, every, last: now });
            },
            None => {},
        }
        match sleep {
            Some(every) => {
                tasks.push(Scheduled { task: Task::Sleep, every, last: now });
            },
            None => {},
        }
        match checkpoint {
            Some(every) => {
                tasks.push(Scheduled { task: Task::Checkpoint, every, last: now });
            },
            None => {},
        }
        Schedule { tasks }
    }

    pub fn is_empty(&self) -> (res: bool)
        ensures
            res == (self@.len() == 0),
    {
        self.tasks.len() == 0
    }

    /// The tasks that are due. Their intervals begin again now.
    pub fn due(&mut self, now: u64) -> (res: Vec<Task>)
        ensures
            res@ == old(self)@.filter(is_due(now)).map_values(task_of()),
            final(self)@ == old(self)@.map_values(ran(now)),
    {
        let ghost all = self.tasks@;
        let ghost p = is_due(now);
        let ghost f = task_of();
        let mut out: Vec<Task> = Vec::new();
        let mut i: usize = 0;
        proof {
            reveal(Seq::filter);
            assert(out@ =~= all.take(0).filter(p).map_values(f));
        }
        while i < self.tasks.len()
            invariant
                i <= self.tasks@.len(),
                all == old(self)@,
                p == is_due(now),
                f == task_of(),
                self.tasks@.len() == all.len(),
                forall|j: int|
                    0 <= j < all.len() ==> #[trigger] self.tasks@[j] == (if j < i {
                        ran(now)(all[j])
                    } else {
                        all[j]
                    }),
                out@ == all.take(i as int).filter(p).map_values(f),
            decreases self.tasks@.len() - i,
        {
            let t = self.tasks[i];
            proof {
                crate::query::lemma_filter_step(all, i as int, p);
                crate::query::lemma_map_push(all.take(i as int).filter(p), all[i as int], f);
            }
            if now >= t.last && now - t.last >= t.every {
                out.push(t.task);
                self.tasks[i] = Scheduled { task: t.task, every: t.every, last: now };
            }
            i += 1;
        }
        assert(all.take(all.len() as int) =~= all);
        assert(self.tasks@ =~= all.map_values(ran(now)));
        out
    }
}

/// Keys of requests that are being worked on, with the time at which they
/// began, in milliseconds.
pub struct Inflight {
    keys: Vec<(String, u64)>,
}

/// How long a request may take before it no longer counts, in milliseconds.
pub const INFLIGHT_STALE_MS: u64 = 60_000;

pub open spec fn current(now: u64) -> spec_fn((Seq<char>, u64)) -> bool {
    |e: (Seq<char>, u64)| now - e.1 < INFLIGHT_STALE_MS
}

pub open spec fn other_key(key: Seq<char>) -> spec_fn((Seq<char>, u64)) -> bool {
    |e: (Seq<char>, u64)| e.0 != key
}

pub open spec fn has_key(s: Seq<(Seq<char>, u64)>, key: Seq<char>) -> bool {
    exists|i: int| 0 <= i < s.len() && (#[trigger] s[i]).0 == key
}

pub open spec fn key_views(s: Seq<(String, u64)>) -> Seq<(Seq<char>, u64)> {
    s.map_values(|e: (String, u64)| (e.0@, e.1))
}

impl View for Inflight {
    type V = Seq<(Seq<char>, u64)>;

    closed spec fn view(&self) -> Seq<(Seq<char>, u64)> {
        key_views(self.keys@)
    }
}

impl Inflight {
    pub fn new() -> (res: Self)
        ensures
            res@ == Seq::<(Seq<char>, u64)>::empty(),
    {
        let res = Inflight { keys: Vec::new() };
        assert(res@ =~= Seq::empty());
        res
    }

    /// Begins a request, unless one with its key is being worked on. Requests
    /// that have taken too long are forgotten.
    pub fn begin(&mut self, key: &str, now: u64) -> (res: bool)
        ensures
            ({
                let live = old(self)@.filter(current(now));
                &&& res == !has_key(live, key@)
                &&& final(self)@ == (if res {
                    live.push((key@, now))
                } else {
                    live
                })
            }),
    {
        let ghost all = self@;
        let ghost p = current(now);
        let mut kept: Vec<(String, u64)> = Vec::new();
        let mut found = false;
        let mut i: usize = 0;
        proof {
            reveal(Seq::filter);
            assert(key_views(kept@) =~= all.take(0).filter(p));
        }
        while i < self.keys.len()
            invariant
                i <= self.keys@.len(),
                all == key_views(self.keys@),
                p == current(now),
                key_views(kept@) == all.take(i as int).filter(p),
                found == has_key(key_views(kept@), key@),
            decreases self.keys@.len() - i,
        {
            let (k, at) = &self.keys[i];
            proof {
                assert(all[i as int] == (k@, *at));
                crate::query::lemma_filter_step(all, i as int, p);
            }
            if now < *at || now - *at < INFLIGHT_STALE_MS {
                let ghost o = kept@;
                let same = same_text(k.as_str(), key);
                kept.push((k.clone(), *at));
                proof {
                    let a = key_views(o);
                    let b = key_views(kept@);
                    assert(b =~= a.push((k@, *at)));
                    if has_key(a, key@) {
                        let j = choose|j: int| 0 <= j < a.len() && (#[trigger] a[j]).0 == key@;
                        assert(b[j].0 == key@);
                    }
                    if same {
                        assert(b[a.len() as int].0 == key@);
                    }
                    if has_key(b, key@) && !same {
                        let j = choose|j: int| 0 <= j < b.len() && (#[trigger] b[j]).0 == key@;
                        assert(a[j].0 == key@);
                    }
                }
                if same {
                    found = true;
                }
            }
            i += 1;
        }
        assert(all.take(all.len() as int) =~= all);
        if !found {
            let ghost o = kept@;
            kept.push((key.to_owned(), now));
            assert(key_views(kept@) =~= key_views(o).push((key@, now)));
        }
        self.keys = kept;
        !found
    }

    /// Ends a request.
    pub fn end(&mut self, key: &str)
        ensures
            final(self)@ == old(self)@.filter(other_key(key@)),
    {
        let ghost all = self@;
        let ghost p = other_key(key@);
        let mut kept: Vec<(String, u64)> = Vec::new();
        let mut i: usize = 0;
        proof {
            reveal(Seq::filter);
            assert(key_views(kept@) =~= all.take(0).filter(p));
        }
        while i < self.keys.len()
            invariant
                i <= self.keys@.len(),
                all == key_views(self.keys@),
                p == other_key(key@),
                key_views(kept@) == all.take(i as int).filter(p),
            decreases self.keys@.len() - i,
        {
            let (k, at) = &self.keys[i];
            proof {
                assert(all[i as int] == (k@, *at));
                crate::query::lemma_filter_step(all, i as int, p);
            }
            if !same_text(k.as_str(), key) {
                let ghost o = kept@;
                kept.push((k.clone(), *at));
                assert(key_views(kept@) =~= key_views(o).push((k@, *at)));
            }
            i += 1;
        }
        assert(all.take(all.len() as int) =~= all);
        self.keys = kept;
    }
}

/// A key is free again once its request has ended.
pub proof fn ended_request_may_begin_again(s: Seq<(Seq<char>, u64)>, key: Seq<char>)
    ensures
        !has_key(s.filter(other_key(key)), key),
    decreases s.len(),
{
    reveal(Seq::filter);
    if s.len() > 0 {
        ended_request_may_begin_again(s.drop_last(), key);
        let p = other_key(key);
        let a = s.drop_last().filter(p);
        let b = s.filter(p);
        if has_key(b, key) {
            let j = choose|j: int| 0 <= j < b.len() && (#[trigger] b[j]).0 == key;
            if j < a.len() {
                assert(a[j].0 == key);
            }
        }
    }
}

/// Feedback requests counted in the current minute.
#[derive(Debug, Clone, Copy, PartialEq, Eq, Structural)]
pub struct FeedbackWindow {
    /// When the minute began, in milliseconds.
    pub start: u64,
    pub count: u32,
}

/// The window after one more request.
pub open spec fn counted(w: FeedbackWindow, now: u64) -> FeedbackWindow {
    let cur = if now - w.start >= 60_000 {
        FeedbackWindow { start: now, count: 0 }
    } else {
        w
    };
    FeedbackWindow {
        count: if cur.count < u32::MAX {
            (cur.count + 1) as u32
        } else {
            u32::MAX
        },
        ..cur
    }
}

impl FeedbackWindow {
    /// Counts a request and says whether it is within the limit of `max` a
    /// minute. Without a limit nothing is counted.
    pub fn allow(&mut self, now: u64, max: u32) -> (res: bool)
        ensures
            max == 0 ==> res && *final(self) == *old(self),
            max > 0 ==> *final(self) == counted(*old(self), now) && res == (final(self).count
                <= max),
    {
        if max == 0 {
            return true;
        }
        if now >= self.start && now - self.start >= 60_000 {
            self.start = now;
            self.count = 0;
        }
        self.count = self.count.saturating_add(1);
        self.count <= max
    }
}

} // verus!
