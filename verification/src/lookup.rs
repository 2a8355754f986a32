//! What a search by tokens finds: the nodes whose names hold a token that a
//! query begins.

use crate::names;
use crate::names::Posting;
use crate::text;
use vstd::prelude::*;
use vstd::utf8;

verus! {

/// Whether a name holds a token that a query, in lower case, begins.
pub open spec fn begins_token(name: Seq<char>, query: Seq<char>) -> bool {
    let q = text::lowercase(query);
    q.len() > 0 && exists|tok: Seq<char>| #[trigger]
        names::tokens(name).contains(tok) && q.is_prefix_of(tok)
}

/// Whether some query begins a token of a name.
pub open spec fn matches_any(name: Seq<char>, queries: Seq<Seq<char>>) -> bool {
    exists|i: int| 0 <= i < queries.len() && begins_token(name, #[trigger] queries[i])
}

/// Whether an index holds an id under a token.
spec fn holds(ix: Seq<Posting>, tok: Seq<char>, id: u32) -> bool {
    exists|i: int| #[trigger] holds_at(ix, tok, id, i)
}

spec fn holds_at(ix: Seq<Posting>, tok: Seq<char>, id: u32, i: int) -> bool {
    0 <= i < ix.len() && ix[i].0 == tok && ix[i].1.contains(id)
}

proof fn lemma_posted(ix: Seq<Posting>, tok: Seq<char>, id: u32, t: Seq<char>, x: u32)
    ensures
        holds(names::posted(ix, tok, id), t, x) == (holds(ix, t, x) || (t == tok && x == id)),
    decreases ix.len(),
{
    let r = names::posted(ix, tok, id);
    if ix.len() == 0 || text::text_lt(ix.last().0, tok) {
        lemma_holds_push(ix, (tok, seq![id]), t, x);
        assert(seq![id][0] == id);
    } else if ix.last().0 == tok {
        let ids = ix.last().1;
        let front = ix.drop_last();
        lemma_holds_push(front, (tok, names::push_new(ids, id)), t, x);
        lemma_holds_push(front, ix.last(), t, x);
        assert(front.push(ix.last()) =~= ix);
        assert(names::push_new(ids, id).contains(x) == (ids.contains(x) || x == id)) by {
            let n = names::push_new(ids, id);
            assert(n[n.len() - 1] == id);
            if ids.contains(x) {
                assert(n[ids.index_of(x)] == x);
            }
            if n.contains(x) && x != id {
                assert(ids[n.index_of(x)] == x);
            }
        }
    } else {
        let front = ix.drop_last();
        lemma_posted(front, tok, id, t, x);
        lemma_holds_push(names::posted(front, tok, id), ix.last(), t, x);
        lemma_holds_push(front, ix.last(), t, x);
        assert(front.push(ix.last()) =~= ix);
    }
}

proof fn lemma_holds_push(ix: Seq<Posting>, p: Posting, t: Seq<char>, x: u32)
    ensures
        holds(ix.push(p), t, x) == (holds(ix, t, x) || (p.0 == t && p.1.contains(x))),
{
    let r = ix.push(p);
    if holds(ix, t, x) {
        let i = choose|i: int| #[trigger] holds_at(ix, t, x, i);
        assert(holds_at(r, t, x, i));
    }
    if p.0 == t && p.1.contains(x) {
        assert(holds_at(r, t, x, ix.len() as int));
    }
    if holds(r, t, x) {
        let i = choose|i: int| #[trigger] holds_at(r, t, x, i);
        if i < ix.len() {
            assert(holds_at(ix, t, x, i));
        }
    }
}

proof fn lemma_posted_all(ix: Seq<Posting>, toks: Seq<Seq<char>>, id: u32, t: Seq<char>, x: u32)
    ensures
        holds(names::posted_all(ix, toks, id), t, x) == (holds(ix, t, x) || (toks.contains(t) && x
            == id)),
    decreases toks.len(),
{
    if toks.len() > 0 {
        let front = toks.drop_last();
        lemma_posted_all(ix, front, id, t, x);
        lemma_posted(names::posted_all(ix, front, id), toks.last(), id, t, x);
        assert(toks.contains(t) == (front.contains(t) || t == toks.last())) by {
            assert(toks[toks.len() - 1] == toks.last());
            if front.contains(t) {
                assert(toks[front.index_of(t)] == t);
            }
            if toks.contains(t) && t != toks.last() {
                assert(front[toks.index_of(t)] == t);
            }
        }
    }
}

/// The index of names holds a name's number under each of its tokens, and
/// nothing else.
proof fn lemma_token_index(all: Seq<Seq<char>>, t: Seq<char>, x: u32)
    requires
        all.len() <= u32::MAX,
    ensures
        holds(names::token_index(all), t, x) == (x < all.len() && names::tokens(
            all[x as int],
        ).contains(t)),
    decreases all.len(),
{
    if all.len() > 0 {
        let front = all.drop_last();
        lemma_token_index(front, t, x);
        lemma_posted_all(
            names::token_index(front),
            names::tokens(all.last()),
            (all.len() - 1) as u32,
            t,
            x,
        );
    } else {
        assert(!holds(names::token_index(all), t, x));
    }
}

/// Where a token belongs among ordered ones.
proof fn lemma_place(ix: Seq<Posting>, n: int, tok: Seq<char>) -> (p: int)
    requires
        names::index_ordered(ix, n),
    ensures
        0 <= p <= ix.len(),
        forall|i: int| 0 <= i < p ==> #[trigger] text::text_lt(ix[i].0, tok),
        forall|i: int| p <= i < ix.len() ==> !#[trigger] text::text_lt(ix[i].0, tok),
    decreases ix.len(),
{
    if ix.len() == 0 {
        0
    } else if text::text_lt(ix.last().0, tok) {
        assert forall|i: int| 0 <= i < ix.len() implies #[trigger] text::text_lt(ix[i].0, tok) by {
            if i < ix.len() - 1 {
                assert(text::text_lt(ix[i].0, ix[ix.len() - 1].0));
                text::lemma_text_lt_trans(ix[i].0, ix.last().0, tok);
            }
        }
        ix.len() as int
    } else {
        let front = ix.drop_last();
        assert forall|i: int, j: int| 0 <= i < j < front.len() implies #[trigger] text::text_lt(
            front[i].0,
            front[j].0,
        ) by {
            assert(text::text_lt(ix[i].0, ix[j].0));
        }
        assert forall|i: int| 0 <= i < front.len() implies names::ascending(
            (#[trigger] front[i]).1,
        ) by {
            assert(names::ascending(ix[i].1));
        }
        assert forall|i: int, j: int|
            0 <= i < front.len() && 0 <= j < front[i].1.len() implies #[trigger] front[i].1[j]
            < n by {
            assert(ix[i].1[j] < n);
        }
        let p = lemma_place(front, n, tok);
        assert forall|i: int| 0 <= i < p implies #[trigger] text::text_lt(ix[i].0, tok) by {
            assert(text::text_lt(front[i].0, tok));
        }
        assert forall|i: int| p <= i < ix.len() implies !#[trigger] text::text_lt(ix[i].0, tok) by {
            if i < front.len() {
                assert(!text::text_lt(front[i].0, tok));
            }
        }
        p
    }
}

proof fn lemma_posted_all_ordered(ix: Seq<Posting>, toks: Seq<Seq<char>>, id: u32)
    requires
        names::index_ordered(ix, id + 1),
    ensures
        names::index_ordered(names::posted_all(ix, toks, id), id + 1),
    decreases toks.len(),
{
    if toks.len() > 0 {
        lemma_posted_all_ordered(ix, toks.drop_last(), id);
        let m = names::posted_all(ix, toks.drop_last(), id);
        let p = lemma_place(m, id + 1, toks.last());
        names::lemma_posted_ordered(m, toks.last(), id, p);
    }
}

proof fn lemma_index_ordered(all: Seq<Seq<char>>)
    requires
        all.len() <= u32::MAX,
    ensures
        names::index_ordered(names::token_index(all), all.len() as int),
    decreases all.len(),
{
    if all.len() > 0 {
        lemma_index_ordered(all.drop_last());
        lemma_posted_all_ordered(
            names::token_index(all.drop_last()),
            names::tokens(all.last()),
            (all.len() - 1) as u32,
        );
    }
}

/// A token that a query begins does not come before the query.
proof fn lemma_prefix_not_less(a: Seq<u8>, b: Seq<u8>)
    requires
        a.is_prefix_of(b),
    ensures
        !text::bytes_lt(b, a),
    decreases a.len(),
{
    if a.len() > 0 {
        assert(a[0] == b[0]);
        assert(a.drop_first().is_prefix_of(b.drop_first()));
        lemma_prefix_not_less(a.drop_first(), b.drop_first());
    }
}

/// What lies between a text and one that it begins, is begun by it too.
proof fn lemma_between(a: Seq<u8>, b: Seq<u8>, c: Seq<u8>)
    requires
        a.is_prefix_of(c),
        !text::bytes_lt(b, a),
        text::bytes_lt(b, c),
    ensures
        a.is_prefix_of(b),
    decreases a.len(),
{
    if a.len() > 0 {
        assert(a[0] == c[0]);
        assert(b.len() > 0);
        assert(a[0] == b[0]);
        assert(a.drop_first().is_prefix_of(c.drop_first()));
        lemma_between(a.drop_first(), b.drop_first(), c.drop_first());
        assert(a =~= seq![a[0]] + a.drop_first());
        assert(b =~= seq![b[0]] + b.drop_first());
        let r = b.drop_first();
        assert forall|i: int| 0 <= i < a.len() implies a[i] == b[i] by {
            if i > 0 {
                assert(a.drop_first()[i - 1] == r[i - 1]);
            }
        }
    }
}

proof fn lemma_prefix_bytes(q: Seq<char>, s: Seq<char>)
    ensures
        q.is_prefix_of(s) ==> utf8::encode_utf8(q).is_prefix_of(utf8::encode_utf8(s)),
{
    if q.is_prefix_of(s) {
        assert(s =~= q + s.skip(q.len() as int));
        text::lemma_encode_concat(q, s.skip(q.len() as int));
    }
}

/// Encoded texts begin one another only where the texts do.
proof fn lemma_bytes_prefix(q: Seq<char>, s: Seq<char>)
    requires
        utf8::encode_utf8(q).is_prefix_of(utf8::encode_utf8(s)),
    ensures
        q.is_prefix_of(s),
    decreases q.len(),
{
    if q.len() > 0 {
        let a = utf8::encode_utf8(q);
        let b = utf8::encode_utf8(s);
        utf8::encode_utf8_first_scalar(q);
        assert(s.len() > 0) by {
            if s.len() == 0 {
                assert(b.len() == 0);
            }
        }
        utf8::encode_utf8_first_scalar(s);
        assert forall|i: int| 0 <= i < a.len() implies a[i] == b[i] by {}
        assert(utf8::decode_first_scalar(a) == utf8::decode_first_scalar(b));
        utf8::char_u32_cast(q[0], q[0] as u32);
        utf8::char_u32_cast(s[0], s[0] as u32);
        assert(q[0] == s[0]);
        let x = utf8::encode_utf8(q.drop_first());
        let y = utf8::encode_utf8(s.drop_first());
        let h = utf8::encode_scalar(q[0] as u32);
        assert(a =~= h + x);
        assert(b =~= h + y);
        assert(x.is_prefix_of(y)) by {
            assert forall|i: int| 0 <= i < x.len() implies x[i] == y[i] by {
                assert(a[h.len() + i] == x[i]);
                assert(b[h.len() + i] == y[i]);
            }
        }
        lemma_bytes_prefix(q.drop_first(), s.drop_first());
        assert(q =~= seq![q[0]] + q.drop_first());
        assert(s =~= seq![s[0]] + s.drop_first());
        assert forall|i: int| 0 <= i < q.len() implies q[i] == s[i] by {
            if i > 0 {
                assert(q.drop_first()[i - 1] == s.drop_first()[i - 1]);
            }
        }
    }
}

/// In an ordered index, no token after one that a query neither comes after
/// nor begins is begun by the query.
proof fn lemma_walk_ends(ix: Seq<Posting>, n: int, q: Seq<char>, i: int, k: int)
    requires
        names::index_ordered(ix, n),
        0 <= i < k < ix.len(),
        !text::text_lt(ix[i].0, q),
        q.is_prefix_of(ix[k].0),
    ensures
        q.is_prefix_of(ix[i].0),
{
    assert(text::text_lt(ix[i].0, ix[k].0));
    lemma_prefix_bytes(q, ix[k].0);
    lemma_between(
        utf8::encode_utf8(q),
        utf8::encode_utf8(ix[i].0),
        utf8::encode_utf8(ix[k].0),
    );
    lemma_bytes_prefix(q, ix[i].0);
}

proof fn lemma_scan_sound(
    ix: Seq<Posting>,
    i: int,
    q: Seq<char>,
    hits: Set<u32>,
    cap: nat,
    x: u32,
)
    requires
        0 <= i,
        names::scan(ix, i, q, hits, cap).contains(x),
    ensures
        hits.contains(x) || exists|tok: Seq<char>| #[trigger]
            holds(ix, tok, x) && q.is_prefix_of(tok),
    decreases ix.len() - i,
{
    if i < ix.len() {
        if text::text_lt(ix[i].0, q) {
            lemma_scan_sound(ix, i + 1, q, hits, cap, x);
        } else if q.is_prefix_of(ix[i].0) {
            let more = hits.union(ix[i].1.to_set());
            if more.contains(x) {
                if !hits.contains(x) {
                    assert(holds_at(ix, ix[i].0, x, i));
                    assert(holds(ix, ix[i].0, x));
                }
            } else {
                lemma_scan_sound(ix, i + 1, q, more, cap, x);
            }
        }
    }
}

proof fn lemma_scan_keeps(
    ix: Seq<Posting>,
    i: int,
    q: Seq<char>,
    hits: Set<u32>,
    cap: nat,
)
    requires
        0 <= i,
        hits.finite(),
    ensures
        hits.subset_of(names::scan(ix, i, q, hits, cap)),
        names::scan(ix, i, q, hits, cap).finite(),
    decreases ix.len() - i,
{
    if i < ix.len() {
        if text::text_lt(ix[i].0, q) {
            lemma_scan_keeps(ix, i + 1, q, hits, cap);
        } else if q.is_prefix_of(ix[i].0) {
            let more = hits.union(ix[i].1.to_set());
            vstd::seq_lib::seq_to_set_is_finite(ix[i].1);
            lemma_scan_keeps(ix, i + 1, q, more, cap);
        }
    }
}

proof fn lemma_scan_complete(
    ix: Seq<Posting>,
    n: int,
    i: int,
    q: Seq<char>,
    hits: Set<u32>,
    cap: nat,
    k: int,
    x: u32,
)
    requires
        names::index_ordered(ix, n),
        hits.finite(),
        0 <= i <= k < ix.len(),
        q.is_prefix_of(ix[k].0),
        ix[k].1.contains(x),
        names::scan(ix, i, q, hits, cap).len() < cap,
    ensures
        names::scan(ix, i, q, hits, cap).contains(x),
    decreases ix.len() - i,
{
    if text::text_lt(ix[i].0, q) {
        if i == k {
            lemma_prefix_bytes(q, ix[k].0);
            lemma_prefix_not_less(utf8::encode_utf8(q), utf8::encode_utf8(ix[k].0));
        }
        lemma_scan_complete(ix, n, i + 1, q, hits, cap, k, x);
    } else {
        if i < k {
            lemma_walk_ends(ix, n, q, i, k);
        }
        let more = hits.union(ix[i].1.to_set());
        vstd::seq_lib::seq_to_set_is_finite(ix[i].1);
        if more.len() < cap {
            if i < k {
                lemma_scan_complete(ix, n, i + 1, q, more, cap, k, x);
            } else {
                lemma_scan_keeps(ix, i + 1, q, more, cap);
            }
        }
    }
}

proof fn lemma_hits_finite(ix: Seq<Posting>, queries: Seq<Seq<char>>, cap: nat)
    ensures
        names::token_hits(ix, queries, cap).finite(),
    decreases queries.len(),
{
    if queries.len() > 0 {
        lemma_hits_finite(ix, queries.drop_last(), cap);
        let hits = names::token_hits(ix, queries.drop_last(), cap);
        lemma_scan_keeps(ix, 0, text::lowercase(queries.last()), hits, cap);
    }
}

proof fn lemma_hits_grow(ix: Seq<Posting>, queries: Seq<Seq<char>>, cap: nat)
    requires
        queries.len() > 0,
    ensures
        names::token_hits(ix, queries.drop_last(), cap).subset_of(
            names::token_hits(ix, queries, cap),
        ),
        names::token_hits(ix, queries.drop_last(), cap).len() <= names::token_hits(
            ix,
            queries,
            cap,
        ).len(),
{
    let hits = names::token_hits(ix, queries.drop_last(), cap);
    lemma_hits_finite(ix, queries.drop_last(), cap);
    lemma_hits_finite(ix, queries, cap);
    lemma_scan_keeps(ix, 0, text::lowercase(queries.last()), hits, cap);
    vstd::set_lib::lemma_len_subset(hits, names::token_hits(ix, queries, cap));
}

/// A search finds only nodes whose names hold a token that some query begins.
pub proof fn search_finds_only_matches(
    all: Seq<Seq<char>>,
    queries: Seq<Seq<char>>,
    cap: nat,
    x: u32,
)
    requires
        all.len() <= u32::MAX,
        names::token_hits(names::token_index(all), queries, cap).contains(x),
    ensures
        x < all.len(),
        matches_any(all[x as int], queries),
    decreases queries.len(),
{
    let ix = names::token_index(all);
    let front = queries.drop_last();
    let hits = names::token_hits(ix, front, cap);
    let q = text::lowercase(queries.last());
    if hits.contains(x) {
        search_finds_only_matches(all, front, cap, x);
        let i = choose|i: int|
            0 <= i < front.len() && begins_token(all[x as int], #[trigger] front[i]);
        assert(begins_token(all[x as int], queries[i]));
    } else {
        lemma_scan_sound(ix, 0, q, hits, cap, x);
        let tok = choose|tok: Seq<char>| #[trigger] holds(ix, tok, x) && q.is_prefix_of(tok);
        lemma_token_index(all, tok, x);
        assert(names::tokens(all[x as int]).contains(tok));
        assert(begins_token(all[x as int], queries[queries.len() - 1]));
    }
}

/// It finds all of them, unless it finds so many that it stops early.
pub proof fn search_finds_every_match(
    all: Seq<Seq<char>>,
    queries: Seq<Seq<char>>,
    cap: nat,
    x: u32,
)
    requires
        all.len() <= u32::MAX,
        x < all.len(),
        matches_any(all[x as int], queries),
        names::token_hits(names::token_index(all), queries, cap).len() < cap,
    ensures
        names::token_hits(names::token_index(all), queries, cap).contains(x),
    decreases queries.len(),
{
    let ix = names::token_index(all);
    let front = queries.drop_last();
    let hits = names::token_hits(ix, front, cap);
    lemma_hits_grow(ix, queries, cap);
    lemma_hits_finite(ix, front, cap);
    lemma_index_ordered(all);
    let i = choose|i: int|
        0 <= i < queries.len() && begins_token(all[x as int], #[trigger] queries[i]);
    if i < front.len() {
        assert(begins_token(all[x as int], front[i]));
        search_finds_every_match(all, front, cap, x);
    } else {
        let q = text::lowercase(queries.last());
        let tok = choose|tok: Seq<char>| #[trigger]
            names::tokens(all[x as int]).contains(tok) && q.is_prefix_of(tok);
        lemma_token_index(all, tok, x);
        let k = choose|k: int| #[trigger] holds_at(ix, tok, x, k);
        lemma_scan_complete(ix, all.len() as int, 0, q, hits, cap, k, x);
    }
}

} // verus!
