//! Who may do what: database names, tokens, and the routes that a token
//! reaches.

use crate::args;
use crate::args::split_at_first;
use crate::graph;
use crate::text;
use crate::text::{cat3, chars_of, same_text, text_of};
use vstd::prelude::*;
use vstd::utf8;

verus! {

/// The database that bare routes address.
pub const DEFAULT_DB: &'static str = "default";

pub open spec fn name_char(c: char) -> bool {
    'a' <= c <= 'z' || '0' <= c <= '9' || c == '_' || c == '-'
}

/// A database name: one to sixty-four lower-case letters, digits, underscores
/// and dashes.
pub open spec fn is_db_name(s: Seq<char>) -> bool {
    1 <= s.len() <= 64 && forall|i: int| 0 <= i < s.len() ==> name_char(#[trigger] s[i])
}

/// Whether a text is a database name.
pub fn valid_db_name(s: &str) -> (res: bool)
    ensures
        res == is_db_name(s@),
{
    let v = chars_of(s);
    if v.len() == 0 || v.len() > 64 {
        return false;
    }
    let mut i: usize = 0;
    while i < v.len()
        invariant
            i <= v@.len(),
            v@ == s@,
            forall|j: int| 0 <= j < i ==> name_char(#[trigger] s@[j]),
        decreases v@.len() - i,
    {
        let c = v[i];
        if !(('a' <= c && c <= 'z') || ('0' <= c && c <= '9') || c == '_' || c == '-') {
            assert(!name_char(s@[i as int]));
            return false;
        }
        i += 1;
    }
    true
}

/// Whether two tokens are the same. Tokens of one length are read to their
/// ends, wherever they differ.
pub fn ct_eq(a: &str, b: &str) -> (res: bool)
    ensures
        res == (a@ == b@),
{
    let x: &[u8] = a.as_bytes();
    let y: &[u8] = b.as_bytes();
    proof {
        if utf8::encode_utf8(a@) == utf8::encode_utf8(b@) {
            text::lemma_encode_injective(a@, b@);
        }
    }
    let n: usize = x.len();
    if n != y.len() {
        return false;
    }
    let mut acc: u8 = 0;
    let mut i: usize = 0;
    while i < n
        invariant
            i <= n,
            n == x@.len(),
            n == y@.len(),
            acc == 0 <==> forall|j: int| 0 <= j < i ==> x@[j] == y@[j],
        decreases n - i,
    {
        let p: u8 = x[i];
        let q: u8 = y[i];
        let d: u8 = p ^ q;
        let next: u8 = acc | d;
        assert(d == 0 <==> p == q) by (bit_vector)
            requires
                d == p ^ q,
        ;
        assert(next == 0 <==> acc == 0 && d == 0) by (bit_vector)
            requires
                next == acc | d,
        ;
        acc = next;
        i += 1;
    }
    if acc == 0 {
        assert(x@ =~= y@);
    }
    acc == 0
}

/// What a token reaches.
#[derive(Debug)]
pub enum Scope {
    Full,
    Read,
    /// Everything, in one database.
    Db(String),
}

/// The mathematical form of a [`Scope`].
pub enum ScopeV {
    Full,
    Read,
    Db(Seq<char>),
}

impl View for Scope {
    type V = ScopeV;

    open spec fn view(&self) -> ScopeV {
        match *self {
            Scope::Full => ScopeV::Full,
            Scope::Read => ScopeV::Read,
            Scope::Db(d) => ScopeV::Db(d@),
        }
    }
}

impl Scope {
    pub fn can_write(&self) -> (res: bool)
        ensures
            res == (self@ !is Read),
    {
        match self {
            Scope::Read => false,
            _ => true,
        }
    }

    fn is_full(&self) -> (res: bool)
        ensures
            res == (self@ is Full),
    {
        match self {
            Scope::Full => true,
            _ => false,
        }
    }
}

/// The tokens of a server.
pub struct Tokens {
    pub token: Option<String>,
    pub read_token: Option<String>,
    /// Database and token.
    pub db_tokens: Vec<(String, String)>,
}

/// The mathematical form of [`Tokens`].
pub struct TokensV {
    pub token: Option<Seq<char>>,
    pub read_token: Option<Seq<char>>,
    pub db_tokens: Seq<(Seq<char>, Seq<char>)>,
}

impl View for Tokens {
    type V = TokensV;

    open spec fn view(&self) -> TokensV {
        TokensV {
            token: graph::label_view(self.token),
            read_token: graph::label_view(self.read_token),
            db_tokens: crate::query::pair_views(self.db_tokens@),
        }
    }
}

/// A refusal: the status of the response, and its message.
pub struct Refusal {
    pub code: u16,
    pub message: String,
}

/// The mathematical form of a [`Refusal`].
pub struct RefusalV {
    pub code: u16,
    pub message: Seq<char>,
}

impl View for Refusal {
    type V = RefusalV;

    open spec fn view(&self) -> RefusalV {
        RefusalV { code: self.code, message: self.message@ }
    }
}

/// A refusal with this status and message.
pub fn refuse(code: u16, message: &str) -> (res: Refusal)
    ensures
        res@ == (RefusalV { code, message: message@ }),
{
    Refusal { code, message: message.to_owned() }
}

/// The first database, from `i` on, that a token belongs to.
pub open spec fn db_with(tokens: Seq<(Seq<char>, Seq<char>)>, t: Seq<char>, i: int) -> Option<
    Seq<char>,
>
    decreases tokens.len() - i,
{
    if i >= tokens.len() {
        None
    } else if tokens[i].1 == t {
        Some(tokens[i].0)
    } else {
        db_with(tokens, t, i + 1)
    }
}

/// What an `Authorization` header reaches. A server without tokens is open.
pub open spec fn authorized(tokens: TokensV, header: Option<Seq<char>>) -> Result<ScopeV, RefusalV> {
    if tokens.token is None && tokens.read_token is None && tokens.db_tokens.len() == 0 {
        Ok(ScopeV::Full)
    } else {
        match header {
            Some(h) => if "Bearer "@.is_prefix_of(h) {
                let t = h.skip(7);
                if tokens.token == Some(t) {
                    Ok(ScopeV::Full)
                } else if tokens.read_token == Some(t) {
                    Ok(ScopeV::Read)
                } else {
                    match db_with(tokens.db_tokens, t, 0) {
                        Some(d) => Ok(ScopeV::Db(d)),
                        None => Err(RefusalV { code: 401, message: "invalid token"@ }),
                    }
                }
            } else {
                Err(RefusalV { code: 401, message: "missing Authorization: Bearer token"@ })
            },
            None => Err(RefusalV { code: 401, message: "missing Authorization: Bearer token"@ }),
        }
    }
}

fn is_token(configured: &Option<String>, t: &str) -> (res: bool)
    ensures
        res == (graph::label_view(*configured) == Some(t@)),
{
    match configured {
        Some(c) => ct_eq(c.as_str(), t),
        None => false,
    }
}

/// What an `Authorization` header reaches.
pub fn auth(tokens: &Tokens, header: Option<&str>) -> (res: Result<Scope, Refusal>)
    ensures
        match res {
            Ok(s) => authorized(tokens@, graph::str_view(header)) == Ok::<ScopeV, RefusalV>(s@),
            Err(e) => authorized(tokens@, graph::str_view(header)) == Err::<ScopeV, RefusalV>(e@),
        },
{
    if tokens.token.is_none() && tokens.read_token.is_none() && tokens.db_tokens.len() == 0 {
        return Ok(Scope::Full);
    }
    proof {
        reveal_strlit("Bearer ");
        assert("Bearer "@.len() == 7);
    }
    let presented = match header {
        Some(h) => text::after_prefix(h, "Bearer "),
        None => None,
    };
    let t = match presented {
        Some(t) => t,
        None => {
            return Err(refuse(401, "missing Authorization: Bearer token"));
        },
    };
    if is_token(&tokens.token, t.as_str()) {
        return Ok(Scope::Full);
    }
    if is_token(&tokens.read_token, t.as_str()) {
        return Ok(Scope::Read);
    }
    let ghost ts = tokens@.db_tokens;
    let ghost whole = authorized(tokens@, graph::str_view(header));
    let mut i: usize = 0;
    while i < tokens.db_tokens.len()
        invariant
            i <= tokens.db_tokens@.len(),
            whole == authorized(tokens@, graph::str_view(header)),
            whole == (match db_with(ts, t@, 0) {
                Some(d) => Ok::<ScopeV, RefusalV>(ScopeV::Db(d)),
                None => Err(RefusalV { code: 401, message: "invalid token"@ }),
            }),
            ts == crate::query::pair_views(tokens.db_tokens@),
            db_with(ts, t@, i as int) == db_with(ts, t@, 0),
        decreases tokens.db_tokens@.len() - i,
    {
        let (db, tok) = &tokens.db_tokens[i];
        assert(ts[i as int] == (db@, tok@));
        if ct_eq(tok.as_str(), t.as_str()) {
            return Ok(Scope::Db(db.clone()));
        }
        i += 1;
    }
    Err(refuse(401, "invalid token"))
}

/// A server that has tokens lets nobody in without one of them.
pub proof fn no_access_without_a_token(tokens: TokensV, header: Option<Seq<char>>)
    requires
        tokens.token is Some || tokens.read_token is Some || tokens.db_tokens.len() > 0,
    ensures
        authorized(tokens, header) is Ok ==> {
            &&& header matches Some(h) && "Bearer "@.is_prefix_of(h)
            &&& {
                let t = header->0.skip(7);
                ||| tokens.token == Some(t) && authorized(tokens, header)->Ok_0 is Full
                ||| tokens.read_token == Some(t) && authorized(tokens, header)->Ok_0 is Read
                ||| exists|i: int|
                    0 <= i < tokens.db_tokens.len() && (#[trigger] tokens.db_tokens[i]).1 == t
                        && authorized(tokens, header)->Ok_0 == ScopeV::Db(tokens.db_tokens[i].0)
            }
        },
{
    match header {
        Some(h) => {
            lemma_db_with(tokens.db_tokens, h.skip(7), 0);
        },
        None => {},
    }
}

proof fn lemma_db_with(tokens: Seq<(Seq<char>, Seq<char>)>, t: Seq<char>, i: int)
    requires
        0 <= i,
    ensures
        db_with(tokens, t, i) matches Some(d) ==> exists|j: int|
            i <= j < tokens.len() && (#[trigger] tokens[j]).1 == t && tokens[j].0 == d,
    decreases tokens.len() - i,
{
    if i < tokens.len() && tokens[i].1 != t {
        lemma_db_with(tokens, t, i + 1);
    }
}

/// A text without the occurrences of `c` that it ends with.
pub open spec fn without_trailing(s: Seq<char>, c: char) -> Seq<char>
    decreases s.len(),
{
    if s.len() > 0 && s.last() == c {
        without_trailing(s.drop_last(), c)
    } else {
        s
    }
}

/// A text without the occurrences of `c` that it ends with.
pub fn trailing_dropped(s: &str, c: char) -> (res: String)
    ensures
        res@ == without_trailing(s@, c),
{
    let v = chars_of(s);
    let mut n: usize = v.len();
    assert(v@.take(n as int) =~= s@);
    while n > 0 && v[n - 1] == c
        invariant
            n <= v@.len(),
            without_trailing(v@.take(n as int), c) == without_trailing(s@, c),
        decreases n,
    {
        assert(v@.take(n as int).drop_last() =~= v@.take(n - 1));
        n -= 1;
    }
    proof {
        let a = v@.take(n as int);
        if n > 0 {
            assert(a.last() == v@[n - 1]);
        }
        assert(without_trailing(a, c) == a);
        assert(v@.subrange(0, n as int) =~= a);
    }
    text_of(&v, 0, n)
}

/// The database and the route in it that a path addresses. Bare routes address
/// the default database; `/db/{name}` itself has an empty route.
pub open spec fn route_of(path: Seq<char>) -> (Seq<char>, Seq<char>) {
    if "/db/"@.is_prefix_of(path) {
        let rest = path.skip(4);
        match args::split_once(rest, '/') {
            Some((name, tail)) => {
                let t = without_trailing(tail, '/');
                (
                    name,
                    if t.len() == 0 {
                        Seq::empty()
                    } else {
                        seq!['/'] + t
                    },
                )
            },
            None => (without_trailing(rest, '/'), Seq::empty()),
        }
    } else {
        (DEFAULT_DB@, path)
    }
}

/// The database and the route in it that a path addresses.
pub fn split_route(path: &str) -> (res: (String, String))
    ensures
        (res.0@, res.1@) == route_of(path@),
{
    proof {
        reveal_strlit("/db/");
        assert("/db/"@.len() == 4);
    }
    match text::after_prefix(path, "/db/") {
        Some(rest) => match split_at_first(rest.as_str(), '/') {
            Some((name, tail)) => {
                let t = trailing_dropped(tail.as_str(), '/');
                let mut route = String::new();
                if !t.as_str().is_empty() {
                    route.push('/');
                    route.append(t.as_str());
                    assert(route@ =~= seq!['/'] + t@);
                } else {
                    assert(route@ =~= Seq::empty());
                }
                (name, route)
            },
            None => (trailing_dropped(rest.as_str(), '/'), String::new()),
        },
        None => (DEFAULT_DB.to_owned(), path.to_owned()),
    }
}

/// The methods that routes tell apart.
#[derive(Debug, Clone, Copy, PartialEq, Eq, Structural)]
pub enum Verb {
    Get,
    Post,
    Delete,
    Other,
}

/// Where a request goes.
pub enum Routed {
    Refused(Refusal),
    ListDbs,
    Metrics,
    Create { name: String },
    Drop { name: String },
    /// A route of a database.
    Db { name: String, route: String },
}

/// The mathematical form of [`Routed`].
pub enum RoutedV {
    Refused(RefusalV),
    ListDbs,
    Metrics,
    Create { name: Seq<char> },
    Drop { name: Seq<char> },
    Db { name: Seq<char>, route: Seq<char> },
}

impl View for Routed {
    type V = RoutedV;

    open spec fn view(&self) -> RoutedV {
        match *self {
            Routed::Refused(r) => RoutedV::Refused(r@),
            Routed::ListDbs => RoutedV::ListDbs,
            Routed::Metrics => RoutedV::Metrics,
            Routed::Create { name } => RoutedV::Create { name: name@ },
            Routed::Drop { name } => RoutedV::Drop { name: name@ },
            Routed::Db { name, route } => RoutedV::Db { name: name@, route: route@ },
        }
    }
}

pub open spec fn refused(code: u16, message: Seq<char>) -> RoutedV {
    RoutedV::Refused(RefusalV { code, message })
}

/// What a request to drop a database comes to. Dropping cannot be undone, so
/// it takes a server with a token.
pub open spec fn drop_request(scope: ScopeV, has_token: bool, multi: bool, name: Seq<char>) -> RoutedV {
    if scope !is Full {
        refused(403, "write scope required"@)
    } else if !has_token {
        refused(403, "DELETE /db/{name} is disabled unless the server runs with --token"@)
    } else if !multi {
        refused(400, "dropping databases requires the server to run with --data-dir"@)
    } else if !is_db_name(name) {
        refused(400, "invalid db name"@)
    } else {
        RoutedV::Drop { name }
    }
}

/// Where a request goes. `multi` says that the server holds several databases.
pub open spec fn routed(
    scope: ScopeV,
    verb: Verb,
    path: Seq<char>,
    has_token: bool,
    multi: bool,
) -> RoutedV {
    let (name, route) = route_of(path);
    if verb == Verb::Get && (path == "/dbs"@ || path == "/metrics"@) {
        if scope is Db {
            refused(403, "this token is database-scoped"@)
        } else if path == "/dbs"@ {
            RoutedV::ListDbs
        } else {
            RoutedV::Metrics
        }
    } else if scope is Db && (scope->Db_0 != name || route.len() == 0) {
        refused(403, "this token is scoped to database '"@ + scope->Db_0 + "'"@)
    } else if route.len() > 0 {
        RoutedV::Db { name, route }
    } else if verb == Verb::Post {
        if scope !is Full {
            refused(403, "write scope required"@)
        } else if !multi {
            refused(
                400,
                "creating databases requires the server to run with --data-dir"@,
            )
        } else {
            RoutedV::Create { name }
        }
    } else if verb == Verb::Delete {
        drop_request(scope, has_token, multi, name)
    } else {
        refused(405, "use POST to create or DELETE to drop a database"@)
    }
}

fn drop_db(scope: &Scope, has_token: bool, multi: bool, name: String) -> (res: Routed)
    ensures
        res@ == drop_request(scope@, has_token, multi, name@),
{
    if !scope.is_full() {
        Routed::Refused(refuse(403, "write scope required"))
    } else if !has_token {
        Routed::Refused(
            refuse(403, "DELETE /db/{name} is disabled unless the server runs with --token"),
        )
    } else if !multi {
        Routed::Refused(
            refuse(400, "dropping databases requires the server to run with --data-dir"),
        )
    } else if !valid_db_name(name.as_str()) {
        Routed::Refused(refuse(400, "invalid db name"))
    } else {
        Routed::Drop { name }
    }
}

/// Where a request goes.
pub fn route(scope: &Scope, verb: Verb, path: &str, has_token: bool, multi: bool) -> (res: Routed)
    ensures
        res@ == routed(scope@, verb, path@, has_token, multi),
{
    let (name, db_route) = split_route(path);
    let dbs = same_text(path, "/dbs");
    if verb == Verb::Get && (dbs || same_text(path, "/metrics")) {
        return match scope {
            Scope::Db(_) => Routed::Refused(refuse(403, "this token is database-scoped")),
            _ => if dbs {
                Routed::ListDbs
            } else {
                Routed::Metrics
            },
        };
    }
    match scope {
        Scope::Db(allowed) => {
            if !same_text(allowed.as_str(), name.as_str()) || db_route.as_str().is_empty() {
                let m = cat3("this token is scoped to database '", allowed.as_str(), "'");
                return Routed::Refused(Refusal { code: 403, message: m });
            }
        },
        _ => {},
    }
    if !db_route.as_str().is_empty() {
        return Routed::Db { name, route: db_route };
    }
    if verb == Verb::Post {
        if !scope.is_full() {
            Routed::Refused(refuse(403, "write scope required"))
        } else if !multi {
            Routed::Refused(
                refuse(400, "creating databases requires the server to run with --data-dir"),
            )
        } else {
            Routed::Create { name }
        }
    } else if verb == Verb::Delete {
        drop_db(scope, has_token, multi, name)
    } else {
        Routed::Refused(refuse(405, "use POST to create or DELETE to drop a database"))
    }
}

/// A token of one database reaches only routes of that database.
pub proof fn db_token_is_confined(
    db: Seq<char>,
    verb: Verb,
    path: Seq<char>,
    has_token: bool,
    multi: bool,
)
    ensures
        match routed(ScopeV::Db(db), verb, path, has_token, multi) {
            RoutedV::Refused(r) => r.code == 403,
            RoutedV::Db { name, route } => name == db && route.len() > 0,
            _ => false,
        },
{
}

/// A token that only reads neither creates nor drops a database.
pub proof fn read_token_changes_no_database_list(
    verb: Verb,
    path: Seq<char>,
    has_token: bool,
    multi: bool,
)
    ensures
        routed(ScopeV::Read, verb, path, has_token, multi) !is Create,
        routed(ScopeV::Read, verb, path, has_token, multi) !is Drop,
{
}

/// Without a token no database is dropped: what cannot be undone takes a server
/// that asks who is there.
pub proof fn dropping_takes_a_token(scope: ScopeV, verb: Verb, path: Seq<char>, multi: bool)
    ensures
        routed(scope, verb, path, false, multi) !is Drop,
{
}

} // verus!
