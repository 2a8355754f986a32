//! Bounded stores of a database: responses that a repeated request is answered
//! with, and traces that credit can still be given to. Also the clock that
//! never goes back, and the mark of a database that takes no more writes.

use crate::bytes;
use crate::bytes::text_lines;
use crate::codec;
use crate::codec::int_of_part;
use crate::json;
use crate::json::{parse_json, Json, JsonV};
use crate::records;
use crate::rpc;
use crate::rpc::{int_json, str_json, whole_of};
use crate::text;
use crate::text::same_text;
use vstd::prelude::*;
use vstd::utf8;

verus! {

/// A stored response.
pub struct Stored {
    pub key: String,
    pub code: u16,
    pub body: String,
    /// When it was stored.
    pub at: i64,
}

/// The mathematical form of a [`Stored`] response.
pub struct StoredV {
    pub key: Seq<char>,
    pub code: u16,
    pub body: Seq<char>,
    pub at: i64,
}

impl View for Stored {
    type V = StoredV;

    open spec fn view(&self) -> StoredV {
        StoredV { key: self.key@, code: self.code, body: self.body@, at: self.at }
    }
}

pub open spec fn stored_views(s: Seq<Stored>) -> Seq<StoredV> {
    s.map_values(|x: Stored| x@)
}

/// The response stored under a key.
pub open spec fn find(s: Seq<StoredV>, key: Seq<char>) -> Option<StoredV>
    decreases s.len(),
{
    if s.len() == 0 {
        None
    } else if s.last().key == key {
        Some(s.last())
    } else {
        find(s.drop_last(), key)
    }
}

/// A response in place of the one under its key.
pub open spec fn in_place(s: Seq<StoredV>, e: StoredV) -> Seq<StoredV>
    decreases s.len(),
{
    if s.len() == 0 {
        s
    } else if s.last().key == e.key {
        s.drop_last().push(e)
    } else {
        in_place(s.drop_last(), e).push(s.last())
    }
}

/// The responses after one more: in place of the one under its key, or last.
pub open spec fn stored(s: Seq<StoredV>, e: StoredV) -> Seq<StoredV> {
    if find(s, e.key) is Some {
        in_place(s, e)
    } else {
        s.push(e)
    }
}

/// The last `cap` members.
pub open spec fn latest<A>(s: Seq<A>, cap: nat) -> Seq<A> {
    if s.len() <= cap {
        s
    } else {
        s.skip(s.len() - cap)
    }
}

/// No two responses have the same key.
pub open spec fn keys_distinct(s: Seq<StoredV>) -> bool {
    forall|i: int, j: int| 0 <= i < j < s.len() ==> (#[trigger] s[i]).key != (#[trigger] s[j]).key
}

proof fn lemma_find(s: Seq<StoredV>, key: Seq<char>)
    ensures
        find(s, key) matches Some(e) ==> e.key == key && s.contains(e),
        find(s, key) is None ==> forall|i: int| 0 <= i < s.len() ==> (#[trigger] s[i]).key != key,
    decreases s.len(),
{
    if s.len() > 0 {
        lemma_find(s.drop_last(), key);
        assert(s[s.len() - 1] == s.last());
        if s.last().key != key {
            match find(s.drop_last(), key) {
                Some(e) => {
                    let j = s.drop_last().index_of(e);
                    assert(s[j] == e);
                },
                None => {
                    assert forall|i: int| 0 <= i < s.len() implies (#[trigger] s[i]).key != key by {
                        if i < s.len() - 1 {
                            assert(s.drop_last()[i] == s[i]);
                        }
                    }
                },
            }
        }
    }
}

proof fn lemma_in_place_at(s: Seq<StoredV>, e: StoredV, i: int)
    requires
        0 <= i < s.len(),
        s[i].key == e.key,
        forall|j: int| i < j < s.len() ==> (#[trigger] s[j]).key != e.key,
    ensures
        find(s, e.key) == Some(s[i]),
        in_place(s, e) == s.update(i, e),
    decreases s.len(),
{
    if i == s.len() - 1 {
        assert(s.drop_last().push(e) =~= s.update(i, e));
    } else {
        assert(s[s.len() - 1].key != e.key);
        lemma_in_place_at(s.drop_last(), e, i);
        assert(s.drop_last().update(i, e).push(s.last()) =~= s.update(i, e));
    }
}

proof fn lemma_stored_distinct(s: Seq<StoredV>, e: StoredV)
    requires
        keys_distinct(s),
    ensures
        keys_distinct(stored(s, e)),
        find(stored(s, e), e.key) == Some(e),
        stored(s, e).len() <= s.len() + 1,
{
    lemma_find(s, e.key);
    match find(s, e.key) {
        Some(x) => {
            let i = s.index_of(x);
            lemma_in_place_at(s, e, i);
            let t = s.update(i, e);
            assert forall|a: int, b: int| 0 <= a < b < t.len() implies (#[trigger] t[a]).key != (
            #[trigger] t[b]).key by {
                assert(s[a].key != s[b].key);
            }
            lemma_in_place_at(t, e, i);
        },
        None => {
            let t = s.push(e);
            assert forall|a: int, b: int| 0 <= a < b < t.len() implies (#[trigger] t[a]).key != (
            #[trigger] t[b]).key by {
                assert(s[a].key != e.key);
                if b < s.len() {
                    assert(s[a].key != s[b].key);
                }
            }
        },
    }
}

proof fn lemma_find_latest(s: Seq<StoredV>, cap: nat, i: int)
    requires
        keys_distinct(s),
        0 <= i < s.len(),
        i >= s.len() - cap,
    ensures
        find(latest(s, cap), s[i].key) == Some(s[i]),
        find(s, s[i].key) == Some(s[i]),
{
    lemma_in_place_at(s, s[i], i);
    if s.len() > cap {
        let t = s.skip(s.len() - cap);
        let k = i - (s.len() - cap);
        assert(t[k] == s[i]);
        assert forall|j: int| k < j < t.len() implies (#[trigger] t[j]).key != s[i].key by {
            assert(t[j] == s[j + s.len() - cap]);
        }
        lemma_in_place_at(t, s[i], k);
    }
}

/// What was stored last under a new key is found again, and the store stays
/// within its bound.
pub proof fn stored_response_is_found(s: Seq<StoredV>, e: StoredV, cap: nat)
    requires
        keys_distinct(s),
        s.len() <= cap,
        cap > 0,
    ensures
        find(latest(stored(s, e), cap), e.key) == Some(e),
        keys_distinct(latest(stored(s, e), cap)),
        latest(stored(s, e), cap).len() <= cap,
{
    lemma_stored_distinct(s, e);
    let t = stored(s, e);
    lemma_find(t, e.key);
    lemma_find(s, e.key);
    match find(s, e.key) {
        Some(x) => {
            lemma_in_place_at(s, e, s.index_of(x));
        },
        None => {
            assert(t[t.len() - 1] == e);
            lemma_find_latest(t, cap, t.len() - 1);
        },
    }
    lemma_latest_distinct(t, cap);
}

proof fn lemma_latest_distinct(s: Seq<StoredV>, cap: nat)
    requires
        keys_distinct(s),
    ensures
        keys_distinct(latest(s, cap)),
{
    let t = latest(s, cap);
    if s.len() > cap {
        let k = s.len() - cap;
        assert forall|i: int, j: int| 0 <= i < j < t.len() implies (#[trigger] t[i]).key != (
        #[trigger] t[j]).key by {
            assert(t[i] == s[i + k]);
            assert(t[j] == s[j + k]);
        }
    }
}

/// A response as a document; the parts come in this order.
pub open spec fn stored_json(e: StoredV) -> JsonV {
    JsonV::Obj(
        seq![
            ("key"@, JsonV::Str(e.key)),
            ("code"@, JsonV::Num(text::decimal_int(e.code as int))),
            ("body"@, JsonV::Str(e.body)),
            ("at_ms"@, JsonV::Num(text::decimal_int(e.at as int))),
        ],
    )
}

pub open spec fn code_part(v: Option<JsonV>) -> Option<u16> {
    match v {
        Some(j) => match rpc::whole_number(j) {
            Some(n) => if n <= u16::MAX {
                Some(n as u16)
            } else {
                None
            },
            None => None,
        },
        None => None,
    }
}

/// The response that a document stands for. Of a member that is repeated the
/// last one counts.
pub open spec fn stored_of(v: JsonV) -> Option<StoredV> {
    match (
        records::is_record(v, 4),
        records::text_part(records::part_of(v, "key"@, 0)),
        code_part(records::part_of(v, "code"@, 1)),
        records::text_part(records::part_of(v, "body"@, 2)),
        codec::int_part(records::part_of(v, "at_ms"@, 3)),
    ) {
        (true, Some(key), Some(code), Some(body), Some(at)) => Some(
            StoredV { key, code, body, at },
        ),
        _ => None,
    }
}

/// A response read from the document that it is written as is the same
/// response, also where the document went through text.
pub proof fn stored_response_survives_encoding(e: StoredV)
    ensures
        stored_of(stored_json(e)) == Some(e),
        stored_of(json::json_sorted(stored_json(e))) == Some(e),
        json::json_exact(stored_json(e), json::JSON_DEPTH as nat),
{
    let fields = stored_json(e)->Obj_0;
    reveal_with_fuel(json::json_exact, 2);
    json::lemma_field_sorted(fields, "key"@);
    json::lemma_field_sorted(fields, "code"@);
    json::lemma_field_sorted(fields, "body"@);
    json::lemma_field_sorted(fields, "at_ms"@);
    assert(json::is_whole(text::decimal_int(e.at as int)));
    assert(json::is_whole(text::decimal_int(e.code as int)));
    reveal_with_fuel(json::field, 5);
    reveal_strlit("key");
    reveal_strlit("code");
    reveal_strlit("body");
    reveal_strlit("at_ms");
    let o = stored_json(e)->Obj_0;
    let o3 = o.drop_last();
    let o2 = o3.drop_last();
    let o1 = o2.drop_last();
    assert(o.last().0 == "at_ms"@);
    assert(o3.last().0 == "body"@);
    assert(o2.last().0 == "code"@);
    assert(o1.last().0 == "key"@);
    assert("key"@[0] == 'k');
    assert("code"@[0] == 'c');
    assert("body"@[0] == 'b');
    assert("at_ms"@[0] == 'a');
    assert(json::field(o, "at_ms"@) == Some(JsonV::Num(text::decimal_int(e.at as int))));
    assert(json::field(o, "body"@) == Some(JsonV::Str(e.body)));
    assert(json::field(o, "code"@) == Some(JsonV::Num(text::decimal_int(e.code as int))));
    assert(json::field(o, "key"@) == Some(JsonV::Str(e.key)));
    text::lemma_parse_int(e.at as int);
    text::lemma_decimal_parse(e.code as nat);
}

/// A response as one line of the log.
pub fn stored_line(e: &Stored) -> (res: String)
    ensures
        res@ == json::json_text(stored_json(e@)),
{
    let fields: Vec<(String, Json)> = vec![
        ("key".to_owned(), str_json(e.key.as_str())),
        ("code".to_owned(), int_json(e.code as i64)),
        ("body".to_owned(), str_json(e.body.as_str())),
        ("at_ms".to_owned(), int_json(e.at)),
    ];
    let j = Json::Obj(fields);
    proof {
        json::lemma_json_view(j);
        assert(json::fields_view(fields@) =~= stored_json(e@)->Obj_0);
    }
    j.text()
}

/// The response that a document stands for.
pub fn read_stored(v: &Json) -> (res: Option<Stored>)
    ensures
        match res {
            Some(e) => stored_of(v@) == Some(e@),
            None => stored_of(v@) is None,
        },
{
    if !v.record(4) {
        return None;
    }
    let code: Option<u16> = match v.part("code", 1) {
        Some(j) => match whole_of(j) {
            Some(n) => if n <= 65_535 {
                Some(n as u16)
            } else {
                None
            },
            None => None,
        },
        None => None,
    };
    match (
        records::text_of_part(v.part("key", 0)),
        code,
        records::text_of_part(v.part("body", 2)),
        int_of_part(v.part("at_ms", 3)),
    ) {
        (Some(key), Some(code), Some(body), Some(at)) => Some(Stored { key, code, body, at }),
        _ => None,
    }
}

/// What a line of the log is read as.
pub open spec fn line_stored(line: Seq<char>) -> Option<StoredV> {
    match json::json_parse(line) {
        Ok(v) => stored_of(v),
        Err(_) => None,
    }
}

/// Reads a line of the log. One that was written for a response reads as that
/// response.
pub fn parse_stored(line: &str) -> (res: Option<Stored>)
    ensures
        match res {
            Some(e) => line_stored(line@) == Some(e@),
            None => line_stored(line@) is None,
        },
        forall|e: StoredV|
            line@ == json::json_text(#[trigger] stored_json(e)) ==> line_stored(line@) == Some(e),
{
    proof {
        assert forall|e: StoredV| line@ == json::json_text(#[trigger] stored_json(e)) implies stored_of(
            json::json_sorted(stored_json(e)),
        ) == Some(e) && json::json_exact(stored_json(e), json::JSON_DEPTH as nat) by {
            stored_response_survives_encoding(e);
        }
    }
    match parse_json(line) {
        Ok(v) => read_stored(&v),
        Err(_) => None,
    }
}

/// The responses that the lines of a log hold: lines that are no response, and
/// responses whose time is over, are left out.
pub open spec fn replayed(lines: Seq<Seq<char>>, now: i64, window: i64) -> Seq<StoredV>
    decreases lines.len(),
{
    if lines.len() == 0 {
        Seq::empty()
    } else {
        let before = replayed(lines.drop_last(), now, window);
        match line_stored(lines.last()) {
            Some(e) => if now - e.at > window {
                before
            } else {
                stored(before, e)
            },
            None => before,
        }
    }
}

/// The lines of a log that are not blank.
pub open spec fn recorded(log: Seq<char>) -> Seq<Seq<char>> {
    records::lines(log).filter(records::not_blank())
}

/// A response as it stands in a log, with the end of its line.
pub open spec fn stored_text(e: StoredV) -> Seq<char> {
    json::json_text(stored_json(e)) + seq!['\n']
}

/// A text whose last line is ended.
pub open spec fn ends_line(s: Seq<char>) -> bool {
    s.len() == 0 || s.last() == '\n'
}

/// How many keys came later than this one; none where it is not there.
pub open spec fn keys_after(s: Seq<StoredV>, key: Seq<char>) -> nat
    decreases s.len(),
{
    if s.len() == 0 || s.last().key == key || find(s, key) is None {
        0
    } else {
        1 + keys_after(s.drop_last(), key)
    }
}

/// Whether a line, if it was written for a response, is read as that response.
pub open spec fn line_reads_back(line: Seq<char>) -> bool {
    forall|e: StoredV|
        line == json::json_text(#[trigger] stored_json(e)) ==> line_stored(line) == Some(e)
}

proof fn lemma_keys_after(s: Seq<StoredV>, key: Seq<char>, i: int)
    requires
        keys_distinct(s),
        0 <= i < s.len(),
        s[i].key == key,
    ensures
        keys_after(s, key) == s.len() - 1 - i,
    decreases s.len(),
{
    lemma_find(s, key);
    if i < s.len() - 1 {
        assert(s.last().key == s[s.len() - 1].key);
        let front = s.drop_last();
        assert forall|a: int, b: int| 0 <= a < b < front.len() implies (#[trigger] front[a]).key
            != (#[trigger] front[b]).key by {
            assert(s[a].key != s[b].key);
        }
        lemma_keys_after(front, key, i);
    }
}

/// A response that is put into a list of responses is among the latest, where
/// fewer keys than fit came later than its own.
proof fn lemma_stored_stays(s: Seq<StoredV>, e: StoredV, cap: nat)
    requires
        keys_distinct(s),
        keys_after(s, e.key) < cap,
    ensures
        find(latest(stored(s, e), cap), e.key) == Some(e),
{
    lemma_stored_distinct(s, e);
    lemma_find(s, e.key);
    let t = stored(s, e);
    match find(s, e.key) {
        Some(x) => {
            let i = s.index_of(x);
            lemma_in_place_at(s, e, i);
            lemma_keys_after(s, e.key, i);
            assert(t[i] == e);
            lemma_find_latest(t, cap, i);
        },
        None => {
            assert(t[t.len() - 1] == e);
            lemma_find_latest(t, cap, t.len() - 1);
        },
    }
}

proof fn lemma_replayed_distinct(lines: Seq<Seq<char>>, now: i64, window: i64)
    ensures
        keys_distinct(replayed(lines, now, window)),
    decreases lines.len(),
{
    if lines.len() > 0 {
        lemma_replayed_distinct(lines.drop_last(), now, window);
        match line_stored(lines.last()) {
            Some(e) => {
                lemma_stored_distinct(replayed(lines.drop_last(), now, window), e);
            },
            None => {},
        }
    }
}

/// A line that is written to the end of a log is its last line.
proof fn lemma_recorded(before: Seq<char>, e: StoredV)
    requires
        ends_line(before),
    ensures
        recorded(before + stored_text(e)) == recorded(before).push(
            json::json_text(stored_json(e)),
        ),
        records::lines(before + stored_text(e)).contains(json::json_text(stored_json(e))),
        !records::is_blank(json::json_text(stored_json(e))),
{
    let line = json::json_text(stored_json(e));
    let log = before + stored_text(e);
    let keep = records::not_blank();
    stored_response_survives_encoding(e);
    json::lemma_text_one_line(stored_json(e), json::JSON_DEPTH as nat);
    crate::wal::lemma_split_line(before, line);
    assert(log =~= before + line + seq!['\n']);
    let ps = text::split_char(before, '\n');
    text::lemma_split_nonempty(before, text::equals('\n'));
    let none = Seq::<char>::empty();
    assert(ps.last() =~= none);
    assert(line.last() == '}' && line[0] == '{');
    assert(records::without_cr(line) == line);
    let front = records::lines(before).drop_last();
    assert(records::lines(before) =~= front.push(none));
    assert(records::lines(log) =~= front.push(line).push(none)) by {
        let qs = text::split_char(log, '\n');
        assert(qs.len() == front.len() + 2);
    }
    assert(records::lines(log)[front.len() as int] == line);
    assert(records::is_blank(none));
    assert(!text::whitespace(line[0]));
    let a = records::lines(before);
    let b = records::lines(log);
    let n = front.len() as int;
    crate::query::lemma_filter_step(a, n, keep);
    crate::query::lemma_filter_step(b, n, keep);
    crate::query::lemma_filter_step(b, n + 1, keep);
    assert(a.take(n) =~= front);
    assert(b.take(n) =~= front);
    assert(a.take(n + 1) =~= a);
    assert(b.take(n + 2) =~= b);
}

/// Whether a log is to be written anew: it has grown well past what is live.
pub open spec fn overgrown(lines: nat, cap: nat) -> bool {
    let limit = if cap * 4 > usize::MAX {
        usize::MAX as nat
    } else {
        cap * 4
    };
    lines > limit && lines > 64
}

fn is_overgrown(lines: usize, cap: usize) -> (res: bool)
    ensures
        res == overgrown(lines as nat, cap as nat),
{
    let limit: usize = if cap <= usize::MAX / 4 {
        cap * 4
    } else {
        usize::MAX
    };
    lines > limit && lines > 64
}

/// Responses by the key of their request, within a time window: a request that
/// is repeated is answered as it was.
pub struct IdemStore {
    cap: usize,
    window_ms: i64,
    entries: Vec<Stored>,
    durable: bool,
    lines: usize,
}

impl View for IdemStore {
    type V = Seq<StoredV>;

    /// Oldest key first.
    closed spec fn view(&self) -> Seq<StoredV> {
        stored_views(self.entries@)
    }
}

impl IdemStore {
    pub closed spec fn cap_of(&self) -> nat {
        self.cap as nat
    }

    pub closed spec fn window_of(&self) -> int {
        self.window_ms as int
    }

    pub closed spec fn lines_of(&self) -> nat {
        self.lines as nat
    }

    pub closed spec fn is_durable(&self) -> bool {
        self.durable
    }

    /// The same limits, and the same kind of store.
    pub open spec fn like(&self, other: &IdemStore) -> bool {
        &&& self.cap_of() == other.cap_of()
        &&& self.window_of() == other.window_of()
        &&& self.is_durable() == other.is_durable()
    }

    /// No two responses have the same key, and there are no more than fit.
    pub open spec fn wf(&self) -> bool {
        keys_distinct(self@) && self@.len() <= self.cap_of()
    }

    pub fn in_memory(cap: usize, window_ms: i64) -> (res: Self)
        ensures
            res.wf(),
            res@ == Seq::<StoredV>::empty(),
            res.cap_of() == cap,
            res.window_of() == window_ms,
            !res.is_durable(),
            res.lines_of() == 0,
    {
        let res = IdemStore { cap, window_ms, entries: Vec::new(), durable: false, lines: 0 };
        assert(res@ =~= Seq::empty());
        res
    }

    /// A store with a log of this content, at this time. The response that was
    /// written to the log last is found again, until its time is over, unless
    /// as many keys as fit came into the log after its own. Lines that are damaged
    /// are passed over.
    pub fn open(cap: usize, window_ms: i64, log: &[u8], now: i64) -> (res: Self)
        ensures
            res.wf(),
            res@ == latest(replayed(recorded(bytes::readable_text(log@)), now, window_ms), cap as nat),
            res.cap_of() == cap,
            res.window_of() == window_ms,
            res.is_durable(),
            res.lines_of() == recorded(bytes::readable_text(log@)).len(),
            forall|before: Seq<char>, e: StoredV|
                #![trigger recorded(before), stored_text(e)]
                log@ == utf8::encode_utf8(before + stored_text(e)) && ends_line(before)
                    && now - e.at <= window_ms
                    && keys_after(replayed(recorded(before), now, window_ms), e.key) < cap
                    ==> find(res@, e.key) == Some(e),
    {
        let text = text_lines(log);
        let res = Self::open_text(cap, window_ms, text.as_str(), now);
        proof {
            assert forall|before: Seq<char>, e: StoredV|
                #![trigger recorded(before), stored_text(e)]
                log@ == utf8::encode_utf8(before + stored_text(e)) && ends_line(before)
                    && now - e.at <= window_ms
                    && keys_after(replayed(recorded(before), now, window_ms), e.key)
                    < cap implies find(res@, e.key) == Some(e) by {
                bytes::lemma_readable_encoded(before + stored_text(e));
            }
        }
        res
    }

    fn open_text(cap: usize, window_ms: i64, log: &str, now: i64) -> (res: Self)
        ensures
            res.wf(),
            res@ == latest(replayed(recorded(log@), now, window_ms), cap as nat),
            res.cap_of() == cap,
            res.window_of() == window_ms,
            res.is_durable(),
            res.lines_of() == recorded(log@).len(),
            forall|before: Seq<char>, e: StoredV|
                #![trigger recorded(before), stored_text(e)]
                log@ == before + stored_text(e) && ends_line(before) && now - e.at <= window_ms
                    && keys_after(replayed(recorded(before), now, window_ms), e.key) < cap
                    ==> find(res@, e.key) == Some(e),
    {
        let lines = records::lines_of(log);
        let ghost all = records::lines(log@);
        let ghost keep = records::not_blank();
        let mut s = IdemStore { cap, window_ms, entries: Vec::new(), durable: true, lines: 0 };
        let mut i: usize = 0;
        proof {
            reveal(Seq::filter);
            assert(all.take(0).filter(keep) =~= Seq::empty());
            assert(s@ =~= Seq::empty());
        }
        while i < lines.len()
            invariant
                i <= lines@.len(),
                text::views(lines@) == all,
                keep == records::not_blank(),
                s.cap == cap,
                s.window_ms == window_ms,
                s.durable,
                s.lines == all.take(i as int).filter(keep).len(),
                s.lines <= i,
                keys_distinct(s@),
                s@ == replayed(all.take(i as int).filter(keep), now, window_ms),
                forall|j: int|
                    0 <= j < i && !records::is_blank(#[trigger] all[j]) ==> line_reads_back(all[j]),
            decreases lines@.len() - i,
        {
            let line = lines[i].as_str();
            let ghost done = all.take(i as int).filter(keep);
            proof {
                assert(all[i as int] == line@);
                crate::query::lemma_filter_step(all, i as int, keep);
            }
            if !records::blank(line) {
                s.lines = s.lines + 1;
                assert(done.push(line@).drop_last() =~= done);
                match parse_stored(line) {
                    Some(e) => {
                        if now as i128 - e.at as i128 <= window_ms as i128 {
                            s.keep(e);
                        }
                    },
                    None => {},
                }
            }
            i += 1;
        }
        assert(all.take(all.len() as int) =~= all);
        let ghost kept = s@;
        s.trim();
        proof {
            assert forall|before: Seq<char>, e: StoredV|
                #![trigger recorded(before), stored_text(e)]
                log@ == before + stored_text(e) && ends_line(before) && now - e.at <= window_ms
                    && keys_after(replayed(recorded(before), now, window_ms), e.key)
                    < cap implies find(s@, e.key) == Some(e) by {
                let line = json::json_text(stored_json(e));
                let earlier = recorded(before);
                lemma_recorded(before, e);
                let j = all.index_of(line);
                assert(all[j] == line);
                assert(line_stored(line) == Some(e));
                assert(earlier.push(line).drop_last() =~= earlier);
                lemma_replayed_distinct(earlier, now, window_ms);
                lemma_stored_stays(replayed(earlier, now, window_ms), e, cap as nat);
            }
        }
        s
    }

    /// Puts a response under its key.
    fn keep(&mut self, e: Stored)
        requires
            keys_distinct(old(self)@),
        ensures
            final(self)@ == stored(old(self)@, e@),
            keys_distinct(final(self)@),
            final(self).like(old(self)),
            final(self).lines_of() == old(self).lines_of(),
    {
        let ghost s = self@;
        proof {
            lemma_stored_distinct(s, e@);
        }
        let mut i: usize = self.entries.len();
        while i > 0
            invariant
                i <= self.entries@.len(),
                *self == *old(self),
                s == stored_views(self.entries@),
                keys_distinct(stored(s, e@)),
                forall|j: int| i <= j < s.len() ==> (#[trigger] s[j]).key != e@.key,
            decreases i,
        {
            assert(s[i - 1] == self.entries@[i - 1]@);
            if same_text(self.entries[i - 1].key.as_str(), e.key.as_str()) {
                proof {
                    lemma_in_place_at(s, e@, i - 1);
                }
                self.entries[i - 1] = e;
                assert(self@ =~= s.update(i - 1, e@));
                assert(self@ == stored(s, e@));
                return ;
            }
            i -= 1;
        }
        proof {
            lemma_find(s, e@.key);
            if find(s, e@.key) is Some {
                let j = s.index_of(find(s, e@.key)->0);
                assert(s[j].key == e@.key);
            }
        }
        self.entries.push(e);
        assert(self@ =~= s.push(e@));
    }

    /// Drops the oldest until no more are left than fit.
    fn trim(&mut self)
        requires
            keys_distinct(old(self)@),
        ensures
            final(self)@ == latest(old(self)@, old(self).cap_of()),
            final(self).wf(),
            final(self).like(old(self)),
            final(self).lines_of() == old(self).lines_of(),
    {
        let ghost s = self@;
        proof {
            lemma_latest_distinct(s, self.cap as nat);
        }
        assert(s.skip(0) =~= s);
        while self.entries.len() > self.cap
            invariant
                self.like(old(self)),
                self.lines_of() == old(self).lines_of(),
                s == old(self)@,
                self@.len() <= s.len(),
                self@ == s.skip(s.len() - self@.len()),
                s.len() > old(self).cap_of() ==> self@.len() >= old(self).cap_of(),
                s.len() <= old(self).cap_of() ==> self@.len() == s.len(),
            decreases self.entries@.len(),
        {
            let ghost before = self@;
            let _ = self.entries.remove(0);
            assert(self@ =~= before.drop_first());
            assert(self@ =~= s.skip(s.len() - self@.len()));
        }
        assert(self@ =~= latest(s, self.cap as nat));
    }

    /// The response stored under a key, while its time is not over.
    pub fn get(&self, key: &str, now: i64) -> (res: Option<(u16, String)>)
        ensures
            match find(self@, key@) {
                Some(e) => if now - e.at > self.window_of() {
                    res is None
                } else {
                    res matches Some((code, body)) && code == e.code && body@ == e.body
                },
                None => res is None,
            },
    {
        let ghost s = self@;
        let mut i: usize = self.entries.len();
        assert(s.take(i as int) =~= s);
        while i > 0
            invariant
                i <= self.entries@.len(),
                s == stored_views(self.entries@),
                find(s, key@) == find(s.take(i as int), key@),
            decreases i,
        {
            let e = &self.entries[i - 1];
            assert(s[i - 1] == e@);
            assert(s.take(i as int).drop_last() =~= s.take(i - 1));
            assert(s.take(i as int).last() == s[i - 1]);
            if same_text(e.key.as_str(), key) {
                if now as i128 - e.at as i128 > self.window_ms as i128 {
                    return None;
                }
                return Some((e.code, e.body.clone()));
            }
            i -= 1;
        }
        None
    }

    /// Stores a response. A store with a log counts the line that was written
    /// for it. Returns whether the log is to be written anew.
    pub fn put(&mut self, e: Stored) -> (res: bool)
        requires
            old(self).wf(),
        ensures
            final(self).wf(),
            final(self)@ == latest(stored(old(self)@, e@), old(self).cap_of()),
            final(self).like(old(self)),
            final(self).lines_of() == (if !old(self).is_durable() {
                old(self).lines_of()
            } else if old(self).lines_of() < usize::MAX {
                old(self).lines_of() + 1
            } else {
                usize::MAX as nat
            }),
            res == (old(self).is_durable() && overgrown(
                final(self).lines_of(),
                old(self).cap_of(),
            )),
    {
        if self.durable {
            self.lines = self.lines.saturating_add(1);
        }
        self.keep(e);
        self.trim();
        self.durable && is_overgrown(self.lines, self.cap)
    }

    /// The log of what is live.
    pub fn live_log(&self) -> (res: String)
        ensures
            res@ == log_text(self@),
    {
        let ghost s = self@;
        let mut out = String::new();
        let mut i: usize = 0;
        assert(out@ =~= log_text(s.take(0)));
        while i < self.entries.len()
            invariant
                i <= self.entries@.len(),
                s == stored_views(self.entries@),
                out@ == log_text(s.take(i as int)),
            decreases self.entries@.len() - i,
        {
            assert(s[i as int] == self.entries@[i as int]@);
            assert(s.take(i + 1).drop_last() =~= s.take(i as int));
            assert(s.take(i + 1).last() == s[i as int]);
            out.append(stored_line(&self.entries[i]).as_str());
            out.push('\n');
            i += 1;
            assert(out@ =~= log_text(s.take(i as int)));
        }
        assert(s.take(s.len() as int) =~= s);
        out
    }

    /// Notes that the log was written anew.
    pub fn rewritten(&mut self)
        requires
            old(self).wf(),
        ensures
            final(self).wf(),
            final(self)@ == old(self)@,
            final(self).like(old(self)),
            final(self).lines_of() == old(self)@.len(),
    {
        self.lines = self.entries.len();
    }

    pub fn len(&self) -> (res: usize)
        ensures
            res == self@.len(),
    {
        self.entries.len()
    }
}

/// The log of responses, a line for each.
pub open spec fn log_text(s: Seq<StoredV>) -> Seq<char>
    decreases s.len(),
{
    if s.len() == 0 {
        Seq::empty()
    } else {
        log_text(s.drop_last()) + json::json_text(stored_json(s.last())) + seq!['\n']
    }
}

/// Whether a trace with this number is there.
pub open spec fn has_id<T>(s: Seq<(u64, T)>, id: u64) -> bool {
    exists|i: int| 0 <= i < s.len() && (#[trigger] s[i]).0 == id
}

/// A trace in place of the one with its number.
pub open spec fn trace_in_place<T>(s: Seq<(u64, T)>, id: u64, t: T) -> Seq<(u64, T)>
    decreases s.len(),
{
    if s.len() == 0 {
        s
    } else if s.last().0 == id {
        s.drop_last().push((id, t))
    } else {
        trace_in_place(s.drop_last(), id, t).push(s.last())
    }
}

/// The trace with a number.
pub open spec fn find_trace<T>(s: Seq<(u64, T)>, id: u64) -> Option<T>
    decreases s.len(),
{
    if s.len() == 0 {
        None
    } else if s.last().0 == id {
        Some(s.last().1)
    } else {
        find_trace(s.drop_last(), id)
    }
}

proof fn lemma_trace_at<T>(s: Seq<(u64, T)>, id: u64, t: T, i: int)
    requires
        0 <= i < s.len(),
        s[i].0 == id,
        forall|j: int| i < j < s.len() ==> (#[trigger] s[j]).0 != id,
    ensures
        find_trace(s, id) == Some(s[i].1),
        trace_in_place(s, id, t) == s.update(i, (id, t)),
    decreases s.len(),
{
    if i == s.len() - 1 {
        assert(s.drop_last().push((id, t)) =~= s.update(i, (id, t)));
    } else {
        assert(s[s.len() - 1].0 != id);
        lemma_trace_at(s.drop_last(), id, t, i);
        assert(s.drop_last().update(i, (id, t)).push(s.last()) =~= s.update(i, (id, t)));
    }
}

proof fn lemma_no_trace<T>(s: Seq<(u64, T)>, id: u64)
    ensures
        find_trace(s, id) is Some == has_id(s, id),
    decreases s.len(),
{
    if s.len() > 0 {
        lemma_no_trace(s.drop_last(), id);
        assert(s[s.len() - 1] == s.last());
        if has_id(s.drop_last(), id) {
            let i = choose|i: int|
                0 <= i < s.drop_last().len() && (#[trigger] s.drop_last()[i]).0 == id;
            assert(s[i].0 == id);
        }
        if has_id(s, id) && s.last().0 != id {
            let i = choose|i: int| 0 <= i < s.len() && (#[trigger] s[i]).0 == id;
            assert(s.drop_last()[i].0 == id);
        }
    }
}

/// The number handed out next finds no trace that was stored before.
pub proof fn fresh_number_finds_nothing<T>(s: Seq<(u64, T)>, next: u64)
    requires
        issued(s, next),
        next < u64::MAX,
    ensures
        find_trace(s, next) is None,
{
    lemma_no_trace(s, next);
}

/// A trace is found under its number once it is stored.
pub proof fn stored_trace_is_found<T>(s: Seq<(u64, T)>, id: u64, t: T, cap: nat)
    requires
        cap > 0,
    ensures
        find_trace(latest(s.push((id, t)), cap), id) == Some(t),
        latest(s.push((id, t)), cap).len() <= cap,
{
    let all = s.push((id, t));
    let kept = latest(all, cap);
    assert(kept.last() == (id, t));
}

/// Every number is below the next one, unless all are used up.
pub open spec fn issued<T>(s: Seq<(u64, T)>, next: u64) -> bool {
    next == u64::MAX || forall|i: int| 0 <= i < s.len() ==> (#[trigger] s[i]).0 < next
}

/// The traces stored last, by the numbers that they were handed out under.
pub struct TraceStore<T> {
    cap: usize,
    next: u64,
    items: Vec<(u64, T)>,
    durable: bool,
    lines: usize,
}

impl<T> View for TraceStore<T> {
    type V = Seq<(u64, T)>;

    /// Oldest first.
    closed spec fn view(&self) -> Seq<(u64, T)> {
        self.items@
    }
}

impl<T> TraceStore<T> {
    pub closed spec fn cap_of(&self) -> nat {
        self.cap as nat
    }

    /// The number of the next trace.
    pub closed spec fn next_of(&self) -> u64 {
        self.next
    }

    pub closed spec fn lines_of(&self) -> nat {
        self.lines as nat
    }

    pub closed spec fn is_durable(&self) -> bool {
        self.durable
    }

    /// Every trace has a number that was handed out.
    pub open spec fn wf(&self) -> bool {
        issued(self@, self.next_of())
    }

    pub fn in_memory(cap: usize) -> (res: Self)
        ensures
            res.wf(),
            res@ == Seq::<(u64, T)>::empty(),
            res.cap_of() == cap,
            res.next_of() == 1,
            !res.is_durable(),
            res.lines_of() == 0,
    {
        TraceStore { cap, next: 1, items: Vec::new(), durable: false, lines: 0 }
    }

    /// A store with a log, before any line of it is replayed.
    pub fn durable(cap: usize) -> (res: Self)
        ensures
            res.wf(),
            res@ == Seq::<(u64, T)>::empty(),
            res.cap_of() == cap,
            res.next_of() == 1,
            res.is_durable(),
            res.lines_of() == 0,
    {
        TraceStore { cap, next: 1, items: Vec::new(), durable: true, lines: 0 }
    }

    /// Replays one line of the log that is not blank: the trace that it holds,
    /// if it holds one.
    pub fn replay(&mut self, rec: Option<(u64, T)>)
        requires
            old(self).wf(),
        ensures
            final(self).wf(),
            final(self).cap_of() == old(self).cap_of(),
            final(self).is_durable() == old(self).is_durable(),
            final(self).lines_of() == (if old(self).lines_of() < usize::MAX {
                old(self).lines_of() + 1
            } else {
                usize::MAX as nat
            }),
            match rec {
                Some((id, t)) => {
                    &&& final(self)@ == (if has_id(old(self)@, id) {
                        trace_in_place(old(self)@, id, t)
                    } else {
                        old(self)@.push((id, t))
                    })
                    &&& final(self).next_of() == (if id < old(self).next_of() {
                        old(self).next_of()
                    } else if id < u64::MAX {
                        (id + 1) as u64
                    } else {
                        u64::MAX
                    })
                },
                None => final(self)@ == old(self)@ && final(self).next_of() == old(self).next_of(),
            },
    {
        self.lines = self.lines.saturating_add(1);
        match rec {
            Some((id, t)) => {
                if id >= self.next {
                    self.next = id.saturating_add(1);
                }
                let ghost s = old(self)@;
                let mut i: usize = self.items.len();
                while i > 0
                    invariant
                        i <= self.items@.len(),
                        rec == Some((id, t)),
                        s == old(self)@,
                        self.items@ == s,
                        old(self).wf(),
                        self.cap == old(self).cap,
                        self.durable == old(self).durable,
                        self.lines_of() == (if old(self).lines_of() < usize::MAX {
                            old(self).lines_of() + 1
                        } else {
                            usize::MAX as nat
                        }),
                        self.next == (if id < old(self).next {
                            old(self).next
                        } else if id < u64::MAX {
                            (id + 1) as u64
                        } else {
                            u64::MAX
                        }),
                        forall|j: int| i <= j < s.len() ==> (#[trigger] s[j]).0 != id,
                    decreases i,
                {
                    if self.items[i - 1].0 == id {
                        proof {
                            lemma_trace_at(s, id, t, i - 1);
                            assert(s[i - 1].0 == id);
                            assert(has_id(s, id));
                        }
                        self.items[i - 1] = (id, t);
                        assert(self.items@ =~= s.update(i - 1, (id, t)));
                        assert(issued(self.items@, self.next));
                        assert(self@ == trace_in_place(s, id, t));
                        return ;
                    }
                    i -= 1;
                }
                assert(!has_id(s, id));
                self.items.push((id, t));
                assert(issued(self.items@, self.next));
            },
            None => {},
        }
    }

    /// Drops the oldest until no more are left than fit.
    pub fn trim(&mut self)
        requires
            old(self).wf(),
        ensures
            final(self).wf(),
            final(self)@ == latest(old(self)@, old(self).cap_of()),
            final(self).cap_of() == old(self).cap_of(),
            final(self).next_of() == old(self).next_of(),
            final(self).is_durable() == old(self).is_durable(),
            final(self).lines_of() == old(self).lines_of(),
    {
        let ghost s = self@;
        assert(s.skip(0) =~= s);
        while self.items.len() > self.cap
            invariant
                s == old(self)@,
                self.cap == old(self).cap,
                self.next == old(self).next,
                self.durable == old(self).durable,
                self.lines == old(self).lines,
                self.items@.len() <= s.len(),
                self.items@ == s.skip(s.len() - self.items@.len()),
                s.len() > self.cap ==> self.items@.len() >= self.cap,
                s.len() <= self.cap ==> self.items@.len() == s.len(),
            decreases self.items@.len(),
        {
            let ghost before = self.items@;
            let _ = self.items.remove(0);
            assert(self.items@ =~= before.drop_first());
            assert(self.items@ =~= s.skip(s.len() - self.items@.len()));
        }
        assert(self@ =~= latest(s, self.cap as nat));
        assert(issued(self.items@, self.next));
    }

    /// Hands out the number of the next trace; none once all are used up.
    pub fn issue(&mut self) -> (res: Option<u64>)
        requires
            old(self).wf(),
        ensures
            final(self).wf(),
            final(self)@ == old(self)@,
            final(self).cap_of() == old(self).cap_of(),
            final(self).is_durable() == old(self).is_durable(),
            final(self).lines_of() == old(self).lines_of(),
            match res {
                Some(id) => {
                    &&& id == old(self).next_of()
                    &&& final(self).next_of() == id + 1
                    &&& !has_id(old(self)@, id)
                },
                None => old(self).next_of() == u64::MAX && final(self).next_of() == u64::MAX,
            },
    {
        let id: u64 = self.next;
        if id == u64::MAX {
            return None;
        }
        self.next = id + 1;
        assert(issued(self.items@, self.next));
        Some(id)
    }

    /// Stores a trace under a number that was handed out. A store with a log
    /// counts the line that was written for it. Returns whether the log is to
    /// be written anew.
    pub fn put(&mut self, id: u64, t: T) -> (res: bool)
        requires
            old(self).wf(),
            id < old(self).next_of(),
        ensures
            final(self).wf(),
            final(self)@ == latest(old(self)@.push((id, t)), old(self).cap_of()),
            final(self).cap_of() == old(self).cap_of(),
            final(self).next_of() == old(self).next_of(),
            final(self).is_durable() == old(self).is_durable(),
            final(self).lines_of() == (if !old(self).is_durable() {
                old(self).lines_of()
            } else if old(self).lines_of() < usize::MAX {
                old(self).lines_of() + 1
            } else {
                usize::MAX as nat
            }),
            res == (old(self).is_durable() && overgrown(
                final(self).lines_of(),
                old(self).cap_of(),
            )),
    {
        if self.durable {
            self.lines = self.lines.saturating_add(1);
        }
        self.items.push((id, t));
        assert(issued(self.items@, self.next));
        self.trim();
        self.durable && is_overgrown(self.lines, self.cap)
    }

    /// Notes that the log was written anew.
    pub fn rewritten(&mut self)
        requires
            old(self).wf(),
        ensures
            final(self).wf(),
            final(self)@ == old(self)@,
            final(self).cap_of() == old(self).cap_of(),
            final(self).next_of() == old(self).next_of(),
            final(self).is_durable() == old(self).is_durable(),
            final(self).lines_of() == old(self)@.len(),
    {
        self.lines = self.items.len();
        assert(issued(self.items@, self.next));
    }

    /// Drops every trace. The numbers go on, so that an old number never
    /// stands for a new trace.
    pub fn clear(&mut self)
        requires
            old(self).wf(),
        ensures
            final(self).wf(),
            final(self)@ == Seq::<(u64, T)>::empty(),
            final(self).cap_of() == old(self).cap_of(),
            final(self).next_of() == old(self).next_of(),
            final(self).is_durable() == old(self).is_durable(),
            final(self).lines_of() == 0,
    {
        self.items.clear();
        self.lines = 0;
    }

    /// The trace with a number.
    pub fn get(&self, id: u64) -> (res: Option<&T>)
        ensures
            match res {
                Some(t) => find_trace(self@, id) == Some(*t),
                None => find_trace(self@, id) is None,
            },
    {
        let ghost s = self@;
        let mut i: usize = self.items.len();
        assert(s.take(i as int) =~= s);
        while i > 0
            invariant
                i <= self.items@.len(),
                s == self.items@,
                find_trace(s, id) == find_trace(s.take(i as int), id),
            decreases i,
        {
            assert(s.take(i as int).drop_last() =~= s.take(i - 1));
            assert(s.take(i as int).last() == s[i - 1]);
            if self.items[i - 1].0 == id {
                return Some(&self.items[i - 1].1);
            }
            i -= 1;
        }
        None
    }

    /// The numbers of the traces, newest last.
    pub fn ids(&self) -> (res: Vec<u64>)
        ensures
            res@.len() == self@.len(),
            forall|i: int| 0 <= i < res@.len() ==> #[trigger] res@[i] == self@[i].0,
    {
        let mut out: Vec<u64> = Vec::new();
        let mut i: usize = 0;
        while i < self.items.len()
            invariant
                i <= self.items@.len(),
                out@.len() == i,
                forall|j: int| 0 <= j < i ==> #[trigger] out@[j] == self.items@[j].0,
            decreases self.items@.len() - i,
        {
            out.push(self.items[i].0);
            i += 1;
        }
        out
    }

    pub fn len(&self) -> (res: usize)
        ensures
            res == self@.len(),
    {
        self.items.len()
    }
}

/// The time in milliseconds, never before a time seen earlier: a clock that is
/// set back gives the latest time seen.
pub fn now_ms(last: &mut i64, wall: i64) -> (res: i64)
    ensures
        res == *final(last),
        res >= *old(last),
        res >= wall,
        res == *old(last) || res == wall,
{
    if wall > *last {
        *last = wall;
    }
    *last
}

/// Marks a database read-only, with the first error that made it so.
pub fn wedge(wedged: &mut Option<String>, err: &str)
    ensures
        crate::graph::label_view(*final(wedged)) == (match *old(wedged) {
            Some(e) => Some(e@),
            None => Some(err@),
        }),
{
    if wedged.is_none() {
        *wedged = Some(err.to_owned());
    }
}

} // verus!
