//! Laws of a server of databases, stated over tokens, paths, limits and times:
//! who is let in, where a request goes, what is kept and for how long.

use crate::access;
use crate::access::{RefusalV, RoutedV, ScopeV, TokensV, Verb};
use crate::args;
use crate::args::ArgsV;
use crate::gate;
use crate::gate::Gate;
use crate::moments;
use crate::registry;
use crate::registry::{FeedbackWindow, LookupV, OpenDbV, Scheduled};
use crate::store;
use crate::store::StoredV;
use crate::text;
use vstd::prelude::*;

verus! {

// ---------------------------------------------------------------------------
// Access
// ---------------------------------------------------------------------------

/// No token is set.
pub open spec fn is_unguarded(tokens: TokensV) -> bool {
    tokens.token is None && tokens.read_token is None && tokens.db_tokens.len() == 0
}

/// The first entry with token `t` is that of database `db`.
pub open spec fn opens_db(tokens: TokensV, t: Seq<char>, i: int) -> bool {
    &&& 0 <= i < tokens.db_tokens.len()
    &&& tokens.db_tokens[i].1 == t
    &&& forall|j: int| 0 <= j < i ==> (#[trigger] tokens.db_tokens[j]).1 != t
}

proof fn lemma_db_with(dbs: Seq<(Seq<char>, Seq<char>)>, t: Seq<char>, i: int)
    requires
        0 <= i <= dbs.len(),
    ensures
        match access::db_with(dbs, t, i) {
            Some(d) => exists|k: int|
                i <= k < dbs.len() && (#[trigger] dbs[k]).1 == t && dbs[k].0 == d && forall|j: int|
                    i <= j < k ==> (#[trigger] dbs[j]).1 != t,
            None => forall|k: int| i <= k < dbs.len() ==> (#[trigger] dbs[k]).1 != t,
        },
    decreases dbs.len() - i,
{
    if i < dbs.len() {
        if dbs[i].1 == t {
            assert(dbs[i].1 == t);
        } else {
            lemma_db_with(dbs, t, i + 1);
        }
    }
}

/// A bearer gets what the token stands for: everything, reading, or one database;
/// a token that stands for nothing is refused.
pub proof fn bearer_gets_what_the_token_stands_for(tokens: TokensV, t: Seq<char>)
    requires
        !is_unguarded(tokens),
    ensures
        ({
            let r = access::authorized(tokens, Some("Bearer "@ + t));
            &&& tokens.token == Some(t) ==> r == Ok::<ScopeV, RefusalV>(ScopeV::Full)
            &&& tokens.token != Some(t) && tokens.read_token == Some(t) ==> r == Ok::<
                ScopeV,
                RefusalV,
            >(ScopeV::Read)
            &&& forall|i: int|
                tokens.token != Some(t) && tokens.read_token != Some(t) && #[trigger] opens_db(
                    tokens,
                    t,
                    i,
                ) ==> r == Ok::<ScopeV, RefusalV>(ScopeV::Db(tokens.db_tokens[i].0))
            &&& tokens.token != Some(t) && tokens.read_token != Some(t) && (forall|i: int|
                0 <= i < tokens.db_tokens.len() ==> (#[trigger] tokens.db_tokens[i]).1 != t)
                ==> (r matches Err(e) && e.code == 401)
        }),
{
    let h = "Bearer "@ + t;
    reveal_strlit("Bearer ");
    assert("Bearer "@.is_prefix_of(h)) by {
        assert(h.subrange(0, 7) =~= "Bearer "@);
    }
    assert(h.skip(7) =~= t);
    lemma_db_with(tokens.db_tokens, t, 0);
}

/// A server without tokens is open to all; one with tokens refuses whoever bears
/// none.
pub proof fn only_a_guarded_server_asks_for_a_bearer(tokens: TokensV, header: Option<Seq<char>>)
    ensures
        is_unguarded(tokens) ==> access::authorized(tokens, header) == Ok::<ScopeV, RefusalV>(
            ScopeV::Full,
        ),
        !is_unguarded(tokens) && (header is None || forall|t: Seq<char>| #[trigger]
            ("Bearer "@ + t) != header->0) ==> (access::authorized(tokens, header) matches Err(e)
            && e.code == 401),
{
    if let Some(h) = header {
        if "Bearer "@.is_prefix_of(h) {
            reveal_strlit("Bearer ");
            assert("Bearer "@ + h.skip(7) =~= h);
        }
    }
}

/// A text without the `c` that it ends with is what stands before them.
pub proof fn trailing_is_taken_off(s: Seq<char>, c: char)
    ensures
        ({
            let t = access::without_trailing(s, c);
            &&& t.len() <= s.len()
            &&& s.take(t.len() as int) == t
            &&& forall|i: int| t.len() <= i < s.len() ==> #[trigger] s[i] == c
            &&& t.len() > 0 ==> t.last() != c
        }),
    decreases s.len(),
{
    if s.len() > 0 && s.last() == c {
        let f = s.drop_last();
        trailing_is_taken_off(f, c);
        let t = access::without_trailing(f, c);
        assert(s.take(t.len() as int) =~= f.take(t.len() as int));
        assert forall|i: int| t.len() <= i < s.len() implies #[trigger] s[i] == c by {
            if i < f.len() {
                assert(f[i] == s[i]);
            }
        }
    } else {
        assert(s.take(s.len() as int) =~= s);
    }
}

proof fn lemma_index_from(s: Seq<char>, c: char, i: int)
    requires
        0 <= i <= s.len(),
    ensures
        i <= args::index_from(s, c, i) <= s.len(),
        forall|j: int| i <= j < args::index_from(s, c, i) ==> #[trigger] s[j] != c,
        args::index_from(s, c, i) < s.len() ==> s[args::index_from(s, c, i)] == c,
    decreases s.len() - i,
{
    if i < s.len() && s[i] != c {
        lemma_index_from(s, c, i + 1);
    }
}

/// A text is split at the first occurrence of a character: with the character
/// between them the two parts give the text back, and the first does not hold it.
pub proof fn split_is_at_the_first_occurrence(s: Seq<char>, c: char)
    ensures
        match args::split_once(s, c) {
            Some((a, b)) => a + seq![c] + b == s && !a.contains(c),
            None => !s.contains(c),
        },
{
    lemma_index_from(s, c, 0);
    let i = args::index_from(s, c, 0);
    if i < s.len() {
        assert(s.take(i) + seq![c] + s.skip(i + 1) =~= s);
    }
}

/// A path under "/db/" addresses the database that it names and the route behind
/// the name, without slashes at its end; any other path is a route of the default
/// database.
pub proof fn path_addresses_the_database_that_it_names(
    name: Seq<char>,
    tail: Seq<char>,
    other: Seq<char>,
)
    requires
        !name.contains('/'),
        !"/db/"@.is_prefix_of(other),
    ensures
        access::route_of("/db/"@ + name) == (name, Seq::<char>::empty()),
        access::route_of("/db/"@ + name + "/"@ + tail).0 == name,
        ({
            let r = access::route_of("/db/"@ + name + "/"@ + tail).1;
            if forall|i: int| 0 <= i < tail.len() ==> #[trigger] tail[i] == '/' {
                r.len() == 0
            } else {
                &&& r.len() >= 2
                &&& r.len() - 1 <= tail.len()
                &&& r == seq!['/'] + tail.take(r.len() - 1)
                &&& r.last() != '/'
                &&& forall|i: int| r.len() - 1 <= i < tail.len() ==> #[trigger] tail[i] == '/'
            }
        }),
        access::route_of(other) == ("default"@, other),
{
    reveal_strlit("/db/");
    reveal_strlit("/");
    let a = "/db/"@ + name;
    assert("/db/"@.is_prefix_of(a)) by {
        assert(a.subrange(0, 4) =~= "/db/"@);
    }
    assert(a.skip(4) =~= name);
    split_is_at_the_first_occurrence(name, '/');
    if args::split_once(name, '/') is Some {
        let p = args::split_once(name, '/')->0;
        assert(name[p.0.len() as int] == '/');
    }
    trailing_is_taken_off(name, '/');
    let t = access::without_trailing(name, '/');
    if t.len() < name.len() {
        assert(name[t.len() as int] == '/');
    }
    assert(name.take(name.len() as int) =~= name);
    let b = "/db/"@ + name + "/"@ + tail;
    assert("/db/"@.is_prefix_of(b)) by {
        assert(b.subrange(0, 4) =~= "/db/"@);
    }
    let rest = b.skip(4);
    assert(rest =~= name + "/"@ + tail);
    lemma_index_from(rest, '/', 0);
    let i = args::index_from(rest, '/', 0);
    assert(rest[name.len() as int] == '/');
    assert(i == name.len()) by {
        if i < name.len() {
            assert(name[i] == rest[i]);
            assert(name.contains('/'));
        }
    }
    assert(rest.take(i) =~= name);
    assert(rest.skip(i + 1) =~= tail);
    trailing_is_taken_off(tail, '/');
    let w = access::without_trailing(tail, '/');
    let r = access::route_of(b).1;
    if w.len() > 0 {
        assert(w.last() == tail[w.len() - 1]);
        assert(r =~= seq!['/'] + w);
        assert(r.last() == w.last());
    } else {
        assert forall|k: int| 0 <= k < tail.len() implies #[trigger] tail[k] == '/' by {}
    }
}

/// A database name is one to sixty-four characters, each a lower-case letter, a
/// digit, an underscore or a dash.
pub open spec fn may_name(s: Seq<char>) -> bool {
    &&& s.len() >= 1
    &&& s.len() <= 64
    &&& forall|i: int|
        0 <= i < s.len() ==> ('a' <= (#[trigger] s[i]) && s[i] <= 'z') || ('0' <= s[i] && s[i]
            <= '9') || s[i] == '_' || s[i] == '-'
}

/// Which names a database may have.
pub proof fn names_are_short_and_plain(s: Seq<char>)
    ensures
        access::is_db_name(s) <==> may_name(s),
{
    if may_name(s) {
        assert forall|i: int| 0 <= i < s.len() implies access::name_char(#[trigger] s[i]) by {}
    }
}

/// Where a request goes: to a route of a database where the path has one, else,
/// without a route, it creates or drops the database that it names, if the scope,
/// the server and, for dropping, a token allow it.
pub proof fn request_goes_where_its_path_says(
    scope: ScopeV,
    verb: Verb,
    path: Seq<char>,
    has_token: bool,
    multi: bool,
)
    ensures
        ({
            let (name, route) = access::route_of(path);
            let r = access::routed(scope, verb, path, has_token, multi);
            let list = verb == Verb::Get && path == "/dbs"@;
            let metrics = verb == Verb::Get && path == "/metrics"@;
            &&& r is ListDbs <==> list && scope !is Db
            &&& r is Metrics <==> metrics && path != "/dbs"@ && scope !is Db
            &&& !list && !metrics && route.len() > 0 && (scope is Db ==> scope->Db_0 == name)
                <==> r == (RoutedV::Db { name, route })
            &&& r == (RoutedV::Create { name }) <==> !list && !metrics && route.len() == 0 && verb
                == Verb::Post && scope is Full && multi
            &&& r == (RoutedV::Drop { name }) <==> !list && !metrics && route.len() == 0 && verb
                == Verb::Delete && scope is Full && has_token && multi && may_name(name)
            &&& r matches RoutedV::Create { name: n } ==> n == name
            &&& r matches RoutedV::Drop { name: n } ==> n == name
            &&& r matches RoutedV::Db { name: n, route: q } ==> n == name && q == route
            &&& r matches RoutedV::Refused(e) ==> e.code == 400 || e.code == 403 || e.code == 405
            &&& r matches RoutedV::Refused(e) ==> (e.code == 403 ==> scope !is Full || !has_token)
        }),
{
    let (name, route) = access::route_of(path);
    names_are_short_and_plain(name);
}

// ---------------------------------------------------------------------------
// Databases
// ---------------------------------------------------------------------------

/// How a database is found: an open one is used, one with a directory is opened,
/// the default one and one that may be created get a directory, and any other is
/// unknown. A server of one database has the default one alone.
pub proof fn database_is_found(
    name: Seq<char>,
    create: bool,
    is_open: bool,
    multi: bool,
    dir_exists: bool,
)
    ensures
        ({
            let r = registry::found(name, create, is_open, multi, dir_exists);
            &&& !may_name(name) <==> (r matches LookupV::Refused(e) && e.code == 400 && e.message
                == "invalid db name '"@ + name + "' (want [a-z0-9_-]{1,64})"@) && !may_name(name)
            &&& may_name(name) && is_open <==> r is Open
            &&& may_name(name) && !is_open && !multi && name == "default"@ <==> r is Files
            &&& may_name(name) && !is_open && multi && dir_exists <==> r == (LookupV::Dir {
                create: false,
            })
            &&& may_name(name) && !is_open && multi && !dir_exists && (create || name
                == "default"@) <==> r == (LookupV::Dir { create: true })
            &&& may_name(name) && !is_open && multi && !dir_exists && !create && name
                != "default"@ ==> (r matches LookupV::Refused(e) && e.code == 404)
            &&& may_name(name) && !is_open && !multi && name != "default"@ ==> (
            r matches LookupV::Refused(e) && e.code == 400)
        }),
{
    names_are_short_and_plain(name);
}

/// What is known of a database's size adds to the sum; what is not known adds
/// nothing, and the order makes no difference.
pub proof fn sizes_add_up(dbs: Seq<OpenDbV>, i: int)
    requires
        0 <= i < dbs.len(),
    ensures
        registry::total_bytes(Seq::<OpenDbV>::empty()) == 0,
        registry::total_bytes(dbs) == registry::total_bytes(dbs.remove(i)) + match dbs[i].bytes {
            Some(n) => n as nat,
            None => 0nat,
        },
        registry::used(dbs) <= registry::total_bytes(dbs),
        registry::total_bytes(dbs) <= u64::MAX ==> registry::used(dbs) == registry::total_bytes(dbs),
        registry::total_bytes(dbs) > u64::MAX ==> registry::used(dbs) == u64::MAX,
    decreases dbs.len(),
{
    if i == dbs.len() - 1 {
        assert(dbs.remove(i) =~= dbs.drop_last());
    } else {
        let f = dbs.drop_last();
        sizes_add_up(f, i);
        assert(dbs.remove(i).drop_last() =~= f.remove(i));
        assert(dbs.remove(i).last() == dbs.last());
    }
}

/// The states that closing databases goes through: each one takes more than the
/// budget, and from it the idle database that was used least recently is closed;
/// the last one fits, or has no idle database left.
pub open spec fn closes(
    states: Seq<Seq<OpenDbV>>,
    closed: Seq<Seq<char>>,
    budget: u64,
) -> bool {
    &&& states.len() == closed.len() + 1
    &&& forall|k: int|
        0 <= k < closed.len() ==> registry::used(#[trigger] states[k]) > budget && exists|v: int|
            #[trigger] takes(states[k], states[k + 1], v, closed[k])
    &&& registry::used(states.last()) <= budget || forall|i: int|
        0 <= i < states.last().len() ==> !(#[trigger] states.last()[i]).idle
}

/// Database `v` is idle, no idle one was used less recently, and it is closed.
pub open spec fn takes(
    before: Seq<OpenDbV>,
    after: Seq<OpenDbV>,
    v: int,
    name: Seq<char>,
) -> bool {
    &&& 0 <= v < before.len()
    &&& before[v].idle
    &&& before[v].name == name
    &&& after == before.remove(v)
    &&& forall|i: int|
        0 <= i < before.len() && (#[trigger] before[i]).idle ==> before[v].last_used
            <= before[i].last_used
}

/// Databases are closed, the least recently used first, until what is open fits
/// the budget or none is idle, and no further.
pub proof fn databases_are_closed_until_they_fit(dbs: Seq<OpenDbV>, budget: u64) -> (states: Seq<
    Seq<OpenDbV>,
>)
    ensures
        states.len() > 0,
        states[0] == dbs,
        closes(states, registry::evictions(dbs, budget), budget),
    decreases dbs.len(),
{
    let closed = registry::evictions(dbs, budget);
    registry::victim_is_least_recently_used(dbs, dbs.len() as int);
    if registry::used(dbs) <= budget {
        seq![dbs]
    } else {
        match registry::victim(dbs, dbs.len() as int) {
            Some(v) => {
                let rest = dbs.remove(v);
                let later = databases_are_closed_until_they_fit(rest, budget);
                let more = registry::evictions(rest, budget);
                let states = seq![dbs] + later;
                assert(closed =~= seq![dbs[v].name] + more);
                assert forall|k: int| 0 <= k < closed.len() implies registry::used(
                    #[trigger] states[k],
                ) > budget && exists|v: int| #[trigger]
                    takes(states[k], states[k + 1], v, closed[k]) by {
                    if k == 0 {
                        assert(states[1] == later[0]);
                        assert(takes(states[0], states[1], v, closed[0]));
                    } else {
                        assert(states[k] == later[k - 1] && states[k + 1] == later[k]);
                        assert(closed[k] == more[k - 1]);
                        let w = choose|w: int| #[trigger]
                            takes(later[k - 1], later[(k - 1) + 1], w, more[k - 1]);
                        assert(takes(states[k], states[k + 1], w, closed[k]));
                    }
                }
                assert(states.last() == later.last());
                states
            },
            None => seq![dbs],
        }
    }
}

/// Room for one more: there is some below the limit; at the limit the idle
/// database that was used least recently makes room, and where none is idle there
/// is none.
pub proof fn room_is_made_by_an_idle_database(dbs: Seq<OpenDbV>, max_open: usize)
    ensures
        match registry::room(dbs, max_open) {
            Ok(None) => dbs.len() < max_open,
            Ok(Some(n)) => dbs.len() >= max_open && exists|v: int|
                0 <= v < dbs.len() && (#[trigger] dbs[v]).idle && dbs[v].name == n && forall|i: int|
                    0 <= i < dbs.len() && (#[trigger] dbs[i]).idle ==> dbs[v].last_used
                        <= dbs[i].last_used,
            Err(e) => dbs.len() >= max_open && e.code == 503 && forall|i: int|
                0 <= i < dbs.len() ==> !(#[trigger] dbs[i]).idle,
        },
{
    registry::victim_is_least_recently_used(dbs, dbs.len() as int);
    if dbs.len() >= max_open {
        if let Some(v) = registry::victim(dbs, dbs.len() as int) {
            assert(dbs[v].idle);
        }
    }
}

/// What a database takes: its graph, and thirty-three bytes for each edge, as far
/// as that can be counted.
pub proof fn edges_take_room_of_their_own(graph_bytes: nat, edges: nat)
    ensures
        graph_bytes + 33 * edges <= usize::MAX ==> registry::footprint(graph_bytes, edges)
            == graph_bytes + 33 * edges,
        graph_bytes + 33 * edges > usize::MAX ==> registry::footprint(graph_bytes, edges)
            == usize::MAX,
{
}

/// A database is full at its limit of bytes or of edges and not before; a limit
/// of 0 is none.
pub proof fn database_is_full_at_its_limits(
    bytes: usize,
    edges: usize,
    max_bytes: usize,
    max_edges: usize,
)
    ensures
        registry::over_quota(bytes, edges, max_bytes, max_edges) is Some <==> (max_bytes > 0 && bytes
            >= max_bytes) || (max_edges > 0 && edges >= max_edges),
        registry::over_quota(bytes, edges, max_bytes, max_edges) matches Some(r) ==> r.code == 507,
{
}

/// The databases of a server are those on disk whose names a database may have
/// and those that are open, each once, those on disk first.
pub proof fn databases_on_disk_and_open_are_listed(
    on_disk: Seq<Seq<char>>,
    open: Seq<Seq<char>>,
    name: Seq<char>,
)
    ensures
        ({
            let disk = registry::sorted_names(on_disk.filter(registry::names_db()));
            let all = registry::joined(disk, open);
            &&& all.contains(name) <==> (on_disk.contains(name) && may_name(name)) || open.contains(
                name,
            )
            &&& all.no_duplicates()
            &&& disk.is_prefix_of(all)
            &&& registry::ascending_names(disk)
        }),
{
    let kept = on_disk.filter(registry::names_db());
    let disk = registry::sorted_names(kept);
    registry::names_are_sorted(kept);
    crate::query::lemma_filter_members(on_disk, registry::names_db());
    names_are_short_and_plain(name);
    assert(kept.contains(name) <==> on_disk.contains(name) && may_name(name)) by {
        if kept.contains(name) {
            let k = kept.index_of(name);
            assert(on_disk.contains(kept[k]) && registry::names_db()(kept[k]));
        }
    }
    assert(disk.contains(name) == kept.contains(name));
    assert(disk.no_duplicates()) by {
        assert forall|i: int, j: int| 0 <= i < j < disk.len() implies disk[i] != disk[j] by {
            assert(text::text_lt(disk[i], disk[j]));
            text::lemma_text_lt_total(disk[i], disk[j]);
        }
    }
    lemma_joined(disk, open, name);
}

proof fn lemma_joined(s: Seq<Seq<char>>, more: Seq<Seq<char>>, name: Seq<char>)
    requires
        s.no_duplicates(),
    ensures
        registry::joined(s, more).contains(name) <==> s.contains(name) || more.contains(name),
        registry::joined(s, more).no_duplicates(),
        s.is_prefix_of(registry::joined(s, more)),
    decreases more.len(),
{
    if more.len() > 0 {
        let front = more.drop_last();
        lemma_joined(s, front, name);
        let before = registry::joined(s, front);
        let all = registry::joined(s, more);
        assert(more[more.len() - 1] == more.last());
        if front.contains(name) {
            assert(more[front.index_of(name)] == name);
        }
        if more.contains(name) && more.last() != name {
            assert(front[more.index_of(name)] == name);
        }
        if !before.contains(more.last()) {
            if before.contains(name) {
                assert(all[before.index_of(name)] == name);
            }
            assert(all[before.len() as int] == more.last());
            if all.contains(name) && name != more.last() {
                assert(before[all.index_of(name)] == name);
            }
        }
    }
}

// ---------------------------------------------------------------------------
// Times
// ---------------------------------------------------------------------------

/// A task is due where its interval has passed since it ran last. All that are due
/// run, in order, and their intervals begin again; the others go on.
pub proof fn tasks_run_when_their_interval_has_passed(s: Seq<Scheduled>, now: u64)
    ensures
        moments::lists(
            s.filter(registry::is_due(now)).map_values(registry::task_of()),
            s.len(),
            |i: int| now - s[i].last >= s[i].every,
            |i: int| s[i].task,
        ),
        s.map_values(registry::ran(now)).len() == s.len(),
        forall|i: int|
            0 <= i < s.len() ==> {
                let after = #[trigger] s.map_values(registry::ran(now))[i];
                &&& after.task == s[i].task
                &&& after.every == s[i].every
                &&& after.last == if now - s[i].last >= s[i].every {
                    now
                } else {
                    s[i].last
                }
            },
{
    let p = registry::is_due(now);
    let f = s.filter(p);
    let list = f.map_values(registry::task_of());
    let at = moments::lemma_filter_lists(s, p);
    let picked = |i: int| p(s[i]);
    let chosen = |i: int| now - s[i].last >= s[i].every;
    assert forall|i: int| 0 <= i < s.len() && #[trigger] chosen(i) implies at.contains(i) by {
        assert(picked(i));
    }
    assert forall|k: int| 0 <= k < at.len() implies 0 <= (#[trigger] at[k]) < s.len() && chosen(
        at[k],
    ) && list[k] == s[at[k]].task by {
        assert(picked(at[k]));
        assert(f[k] == s[at[k]]);
    }
    assert(moments::listed_at(at, list, s.len(), chosen, |i: int| s[i].task));
}

/// Feedback is counted by the minute: within a minute of the first that counts one
/// more is counted, and after it counting begins again with this one.
pub proof fn feedback_is_counted_by_the_minute(w: FeedbackWindow, now: u64)
    ensures
        now - w.start < 60_000 ==> registry::counted(w, now).start == w.start && (w.count < u32::MAX
            ==> registry::counted(w, now).count == w.count + 1),
        now - w.start >= 60_000 ==> registry::counted(w, now).start == now && registry::counted(
            w,
            now,
        ).count == 1,
{
}

// ---------------------------------------------------------------------------
// Repeated requests
// ---------------------------------------------------------------------------

/// What is found under a key is the last response that was kept under it.
pub proof fn response_is_the_last_under_its_key(s: Seq<StoredV>, key: Seq<char>)
    ensures
        match store::find(s, key) {
            Some(e) => exists|i: int|
                0 <= i < s.len() && #[trigger] s[i] == e && e.key == key && forall|j: int|
                    i < j < s.len() ==> (#[trigger] s[j]).key != key,
            None => forall|i: int| 0 <= i < s.len() ==> (#[trigger] s[i]).key != key,
        },
    decreases s.len(),
{
    if s.len() > 0 {
        let front = s.drop_last();
        let last = s.len() - 1;
        assert(s[last] == s.last());
        if s.last().key != key {
            response_is_the_last_under_its_key(front, key);
            match store::find(front, key) {
                Some(e) => {
                    let i = choose|i: int|
                        0 <= i < front.len() && #[trigger] front[i] == e && e.key == key && forall|
                            j: int,
                        |
                            i < j < front.len() ==> (#[trigger] front[j]).key != key;
                    assert(s[i] == e);
                    assert forall|j: int| i < j < s.len() implies (#[trigger] s[j]).key != key by {
                        if j < last {
                            assert(front[j] == s[j]);
                        }
                    }
                },
                None => {
                    assert forall|i: int| 0 <= i < s.len() implies (#[trigger] s[i]).key != key by {
                        if i < last {
                            assert(front[i] == s[i]);
                        }
                    }
                },
            }
        } else {
            assert(s[last] == s.last());
        }
    }
}

/// A response takes the place of the one under its key, or comes last; no other is
/// moved or changed.
pub proof fn stored_response_takes_its_place(s: Seq<StoredV>, e: StoredV)
    requires
        store::keys_distinct(s),
    ensures
        ({
            let r = store::stored(s, e);
            if forall|i: int| 0 <= i < s.len() ==> (#[trigger] s[i]).key != e.key {
                r == s.push(e)
            } else {
                &&& r.len() == s.len()
                &&& forall|i: int|
                    0 <= i < s.len() ==> #[trigger] r[i] == if s[i].key == e.key {
                        e
                    } else {
                        s[i]
                    }
            }
        }),
{
    response_is_the_last_under_its_key(s, e.key);
    lemma_in_place(s, e);
}

proof fn lemma_in_place(s: Seq<StoredV>, e: StoredV)
    requires
        store::keys_distinct(s),
    ensures
        store::in_place(s, e).len() == s.len(),
        forall|i: int|
            0 <= i < s.len() ==> #[trigger] store::in_place(s, e)[i] == if s[i].key == e.key {
                e
            } else {
                s[i]
            },
    decreases s.len(),
{
    if s.len() > 0 {
        let front = s.drop_last();
        assert forall|i: int, j: int| 0 <= i < j < front.len() implies (#[trigger] front[i]).key
            != (#[trigger] front[j]).key by {
            assert(s[i].key != s[j].key);
        }
        lemma_in_place(front, e);
        let r = store::in_place(s, e);
        assert forall|i: int| 0 <= i < s.len() implies #[trigger] r[i] == if s[i].key == e.key {
            e
        } else {
            s[i]
        } by {
            if i < front.len() {
                assert(front[i] == s[i]);
                if s.last().key == e.key {
                    assert(s[i].key != s[s.len() - 1].key);
                } else {
                    assert(r[i] == store::in_place(front, e)[i]);
                }
            }
        }
    }
}

proof fn lemma_find_in_place(s: Seq<StoredV>, e: StoredV, key: Seq<char>)
    requires
        store::find(s, e.key) is Some,
    ensures
        store::find(store::in_place(s, e), key) == if key == e.key {
            Some(e)
        } else {
            store::find(s, key)
        },
    decreases s.len(),
{
    if s.last().key == e.key {
        assert(s.drop_last().push(e).drop_last() =~= s.drop_last());
    } else {
        let r = store::in_place(s.drop_last(), e);
        lemma_find_in_place(s.drop_last(), e, key);
        assert(r.push(s.last()).drop_last() =~= r);
    }
}

/// Line `i` holds an outcome under the key whose time is not over.
pub open spec fn recalls(
    lines: Seq<Seq<char>>,
    now: i64,
    window: i64,
    key: Seq<char>,
    i: int,
) -> bool {
    &&& 0 <= i < lines.len()
    &&& store::line_stored(lines[i]) matches Some(e) && e.key == key && now - e.at <= window
}

/// What is found under a key after a log was read is the last outcome under it whose
/// time is not over; where there is none, nothing is found.
pub proof fn log_recalls_the_last_outcome_in_time(
    lines: Seq<Seq<char>>,
    now: i64,
    window: i64,
    key: Seq<char>,
)
    ensures
        match store::find(store::replayed(lines, now, window), key) {
            Some(e) => exists|i: int| #[trigger]
                recalls(lines, now, window, key, i) && store::line_stored(lines[i]) == Some(e)
                    && forall|j: int|
                    i < j < lines.len() ==> !#[trigger] recalls(lines, now, window, key, j),
            None => forall|i: int| !#[trigger] recalls(lines, now, window, key, i),
        },
    decreases lines.len(),
{
    if lines.len() > 0 {
        let front = lines.drop_last();
        let last = lines.len() - 1;
        log_recalls_the_last_outcome_in_time(front, now, window, key);
        let before = store::replayed(front, now, window);
        assert forall|i: int| i < last implies #[trigger] recalls(lines, now, window, key, i)
            == recalls(front, now, window, key, i) by {
            if 0 <= i {
                assert(front[i] == lines[i]);
            }
        }
        if let Some(e) = store::line_stored(lines[last]) {
            if now - e.at <= window {
                if store::find(before, e.key) is Some {
                    lemma_find_in_place(before, e, key);
                } else {
                    assert(before.push(e).drop_last() =~= before);
                }
            }
        }
        if recalls(lines, now, window, key, last) {
            assert(store::find(store::replayed(lines, now, window), key) == store::line_stored(
                lines[last],
            ));
        } else {
            assert(store::find(store::replayed(lines, now, window), key) == store::find(
                before,
                key,
            ));
            if let Some(e) = store::find(before, key) {
                let i = choose|i: int| #[trigger]
                    recalls(front, now, window, key, i) && store::line_stored(front[i]) == Some(e)
                        && forall|j: int|
                        i < j < front.len() ==> !#[trigger] recalls(front, now, window, key, j);
                assert(recalls(lines, now, window, key, i));
                assert(front[i] == lines[i]);
                assert forall|j: int| i < j < lines.len() implies !#[trigger] recalls(
                    lines,
                    now,
                    window,
                    key,
                    j,
                ) by {
                    if j < last {
                        assert(!recalls(front, now, window, key, j));
                    }
                }
            } else {
                assert forall|i: int| !#[trigger] recalls(lines, now, window, key, i) by {
                    if i < last {
                        assert(!recalls(front, now, window, key, i));
                    }
                }
            }
        }
    }
}

/// Of what is kept only the last so many stay.
pub proof fn only_the_last_stay<A>(s: Seq<A>, cap: nat)
    ensures
        store::latest(s, cap).len() == if s.len() <= cap {
            s.len()
        } else {
            cap
        },
        forall|i: int|
            0 <= i < store::latest(s, cap).len() ==> #[trigger] store::latest(s, cap)[i] == s[s.len()
                - store::latest(s, cap).len() + i],
{
}

/// What becomes of a change: where the log cannot be written it is refused; where
/// the database is full a batch is; without a key it runs; with one, an outcome
/// that is kept and whose time is not over is given again, a request that is being
/// worked on is refused, and any other runs and is worked on from then.
pub proof fn change_runs_once(
    wedged: Option<Seq<char>>,
    full: Option<RefusalV>,
    method: Seq<char>,
    route: Seq<char>,
    key: Option<Seq<char>>,
    kept: Seq<StoredV>,
    window: int,
    flying: Seq<(Seq<char>, u64)>,
    now: i64,
    tick: u64,
)
    ensures
        ({
            let (r, after) = gate::gated(
                wedged,
                full,
                method,
                route,
                key,
                kept,
                window,
                flying,
                now,
                tick,
            );
            let shut = wedged is Some;
            let stuffed = full is Some && route == "/ingest"@;
            let k = method + " "@ + route + " "@ + key->0;
            let old = store::find(kept, k);
            let fresh = old is Some && now - old->0.at <= window;
            let busy = exists|i: int|
                0 <= i < flying.len() && (#[trigger] flying[i]).0 == k && tick - flying[i].1
                    < 60_000;
            &&& shut ==> (r matches Gate::Refused(e) && e.code == 503)
            &&& !shut && stuffed ==> r == Gate::<RefusalV, Seq<char>>::Refused(full->0)
            &&& !shut && !stuffed && key is None ==> r == (Gate::<RefusalV, Seq<char>>::Run {
                key: None,
            })
            &&& !shut && !stuffed && key is Some && fresh ==> r == (Gate::<
                RefusalV,
                Seq<char>,
            >::Replay { code: old->0.code, body: old->0.body })
            &&& !shut && !stuffed && key is Some && !fresh && busy ==> (
            r matches Gate::Refused(e) && e.code == 409)
            &&& !shut && !stuffed && key is Some && !fresh && !busy ==> {
                &&& r == (Gate::<RefusalV, Seq<char>>::Run { key: Some(k) })
                &&& after.len() > 0
                &&& after.last() == (k, tick)
                &&& moments::lists(
                    after.drop_last(),
                    flying.len(),
                    |i: int| tick - flying[i].1 < 60_000,
                    |i: int| flying[i],
                )
            }
            &&& shut || stuffed || key is None || fresh ==> after == flying
        }),
{
    let p = registry::current(tick);
    let live = flying.filter(p);
    if key is Some {
        let k = method + " "@ + route + " "@ + key->0;
        let at = moments::lemma_filter_lists(flying, p);
        let picked = |i: int| p(flying[i]);
        let chosen = |i: int| tick - flying[i].1 < 60_000;
        assert forall|i: int| 0 <= i < flying.len() && #[trigger] chosen(i) implies at.contains(
            i,
        ) by {
            assert(picked(i));
        }
        assert forall|m: int| 0 <= m < at.len() implies 0 <= (#[trigger] at[m]) < flying.len()
            && chosen(at[m]) && live[m] == flying[at[m]] by {
            assert(picked(at[m]));
        }
        assert(moments::listed_at(at, live, flying.len(), chosen, |i: int| flying[i]));
        if registry::has_key(live, k) {
            let m = choose|m: int| 0 <= m < live.len() && (#[trigger] live[m]).0 == k;
            assert(chosen(at[m]));
            assert(flying[at[m]].0 == k);
        }
        if exists|i: int|
            0 <= i < flying.len() && (#[trigger] flying[i]).0 == k && tick - flying[i].1 < 60_000 {
            let i = choose|i: int|
                0 <= i < flying.len() && (#[trigger] flying[i]).0 == k && tick - flying[i].1
                    < 60_000;
            assert(chosen(i));
            let m = at.index_of(i);
            assert(live[m].0 == k);
        }
        assert(live.push((k, tick)).drop_last() =~= live);
    }
}

/// The outcome of a change is kept unless the server failed.
pub proof fn outcome_is_kept_unless_the_server_failed(
    kept: Seq<StoredV>,
    cap: nat,
    key: Seq<char>,
    code: u16,
    body: Seq<char>,
    now: i64,
)
    requires
        store::keys_distinct(kept),
        kept.len() <= cap,
        cap > 0,
    ensures
        code < 500 ==> store::find(gate::settled(kept, cap, key, code, body, now), key) == Some(
            StoredV { key, code, body, at: now },
        ),
        code >= 500 ==> gate::settled(kept, cap, key, code, body, now) == kept,
{
    store::stored_response_is_found(kept, StoredV { key, code, body, at: now }, cap);
}

/// A log of outcomes is written anew where it has more than four lines for each
/// that may be kept, and more than sixty-four.
pub proof fn log_of_outcomes_is_bounded(lines: nat, cap: nat)
    ensures
        4 * cap <= usize::MAX ==> (store::overgrown(lines, cap) <==> lines > 4 * cap && lines > 64),
        lines <= 64 ==> !store::overgrown(lines, cap),
{
}

// ---------------------------------------------------------------------------
// Arguments
// ---------------------------------------------------------------------------

/// A key gives the value that it was given last.
pub proof fn key_gives_its_last_value(flags: Seq<(Seq<char>, Seq<char>)>, k: Seq<char>)
    ensures
        match args::last_value(flags, k) {
            Some(v) => exists|i: int|
                0 <= i < flags.len() && #[trigger] flags[i] == (k, v) && forall|j: int|
                    i < j < flags.len() ==> (#[trigger] flags[j]).0 != k,
            None => forall|i: int| 0 <= i < flags.len() ==> (#[trigger] flags[i]).0 != k,
        },
    decreases flags.len(),
{
    if flags.len() > 0 {
        let front = flags.drop_last();
        let last = flags.len() - 1;
        if flags.last().0 == k {
            assert(flags[last] == (k, flags.last().1));
        } else {
            key_gives_its_last_value(front, k);
            match args::last_value(front, k) {
                Some(v) => {
                    let i = choose|i: int|
                        0 <= i < front.len() && #[trigger] front[i] == (k, v) && forall|j: int|
                            i < j < front.len() ==> (#[trigger] front[j]).0 != k;
                    assert(flags[i] == (k, v));
                    assert forall|j: int| i < j < flags.len() implies (#[trigger] flags[j]).0
                        != k by {
                        if j < last {
                            assert(front[j] == flags[j]);
                        }
                    }
                },
                None => {
                    assert forall|i: int| 0 <= i < flags.len() implies (#[trigger] flags[i]).0
                        != k by {
                        if i < last {
                            assert(front[i] == flags[i]);
                        }
                    }
                },
            }
        }
    }
}

/// All values of a key are those that it was given, in order.
pub proof fn key_keeps_all_its_values(flags: Seq<(Seq<char>, Seq<char>)>, k: Seq<char>)
    ensures
        moments::lists(
            args::values(flags, k),
            flags.len(),
            |i: int| flags[i].0 == k,
            |i: int| flags[i].1,
        ),
{
    let at = lemma_values(flags, k, flags.len());
    assert(flags.take(flags.len() as int) =~= flags);
}

proof fn lemma_values(flags: Seq<(Seq<char>, Seq<char>)>, k: Seq<char>, n: nat) -> (at: Seq<int>)
    requires
        n <= flags.len(),
    ensures
        moments::listed_at(
            at,
            args::values(flags.take(n as int), k),
            n,
            |i: int| flags[i].0 == k,
            |i: int| flags[i].1,
        ),
    decreases n,
{
    let chosen = |i: int| flags[i].0 == k;
    if n == 0 {
        Seq::empty()
    } else {
        let before = lemma_values(flags, k, (n - 1) as nat);
        assert(flags.take(n as int).drop_last() =~= flags.take(n - 1));
        assert(flags.take(n as int).last() == flags[n - 1]);
        let at = if chosen(n - 1) {
            before.push(n - 1)
        } else {
            before
        };
        assert forall|i: int| 0 <= i < n && #[trigger] chosen(i) implies at.contains(i) by {
            if i < n - 1 {
                let j = before.index_of(i);
                assert(at[j] == i);
            } else {
                assert(at[at.len() - 1] == i);
            }
        }
        at
    }
}

/// The token begins with two dashes.
pub open spec fn dashed(t: Seq<char>) -> bool {
    t.len() >= 2 && t[0] == '-' && t[1] == '-'
}

/// What each token of a command line is: a token without dashes stands by itself;
/// one with dashes and an equals sign gives its key the value behind the sign; one
/// without a sign takes the next token as its value where that has no dashes, and
/// is a switch otherwise. What follows is read in the same way.
pub proof fn tokens_are_read_one_by_one(toks: Seq<Seq<char>>, i: int, a: ArgsV)
    requires
        0 <= i <= toks.len(),
    ensures
        ({
            let r = args::parse_from(toks, i, a);
            &&& i == toks.len() ==> r == a
            &&& i < toks.len() && !dashed(toks[i]) ==> r == args::parse_from(
                toks,
                i + 1,
                ArgsV { positionals: a.positionals.push(toks[i]), ..a },
            )
            &&& forall|k: Seq<char>, v: Seq<char>|
                i < toks.len() && toks[i] == #[trigger] ("--"@ + k + "="@ + v) && !k.contains('=')
                    ==> r == args::parse_from(
                    toks,
                    i + 1,
                    ArgsV { flags: a.flags.push((k, v)), ..a },
                )
            &&& forall|k: Seq<char>|
                i < toks.len() && toks[i] == #[trigger] ("--"@ + k) && !k.contains('=') && i + 1
                    < toks.len() && !dashed(toks[i + 1]) ==> r == args::parse_from(
                    toks,
                    i + 2,
                    ArgsV { flags: a.flags.push((k, toks[i + 1])), ..a },
                )
            &&& forall|k: Seq<char>|
                i < toks.len() && toks[i] == #[trigger] ("--"@ + k) && !k.contains('=') && (i + 1
                    == toks.len() || dashed(toks[i + 1])) ==> r == args::parse_from(
                    toks,
                    i + 1,
                    ArgsV { bools: a.bools.push(k), ..a },
                )
        }),
{
    reveal_strlit("--");
    reveal_strlit("=");
    assert forall|t: Seq<char>| #[trigger] args::is_flag(t) == dashed(t) by {
        if t.len() >= 2 {
            assert(t.subrange(0, 2)[0] == t[0] && t.subrange(0, 2)[1] == t[1]);
            if dashed(t) {
                assert("--"@ =~= t.subrange(0, 2));
            }
        }
    }
    if i < toks.len() {
        let t = toks[i];
        assert(args::is_flag(t) == dashed(t));
        if i + 1 < toks.len() {
            assert(args::is_flag(toks[i + 1]) == dashed(toks[i + 1]));
        }
        let key = t.skip(2);
        split_is_at_the_first_occurrence(key, '=');
        assert forall|k: Seq<char>, v: Seq<char>|
            t == #[trigger] ("--"@ + k + "="@ + v) && !k.contains('=') implies args::split_once(
            key,
            '=',
        ) == Some((k, v)) && dashed(t) by {
            assert(key =~= k + "="@ + v);
            lemma_index_from(key, '=', 0);
            let j = args::index_from(key, '=', 0);
            assert(key[k.len() as int] == '=');
            if j < k.len() {
                assert(k[j] == key[j]);
                assert(k.contains('='));
            }
            assert(key.take(j) =~= k);
            assert(key.skip(j + 1) =~= v);
        }
        assert forall|k: Seq<char>|
            t == #[trigger] ("--"@ + k) && !k.contains('=') implies args::split_once(key, '=') is None
            && key == k && dashed(t) by {
            assert(key =~= k);
            if args::split_once(key, '=') is Some {
                let p = args::split_once(key, '=')->0;
                assert(key[p.0.len() as int] == '=');
            }
        }
    }
}

} // verus!
