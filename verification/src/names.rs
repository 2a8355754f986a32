//! The inverted index from the tokens of node names to the nodes.

use crate::text;
use crate::text::{byte_len, chars_of, has_prefix, same_text, text_less};
use vstd::prelude::*;

verus! {

pub open spec fn not_alphanumeric() -> spec_fn(char) -> bool {
    |c: char| !text::alphanumeric(c)
}

pub open spec fn indexable() -> spec_fn(Seq<char>) -> bool {
    |t: Seq<char>| t.len() >= 2
}

/// The indexable tokens of a name: its lower-case alphanumeric runs of two
/// characters or more, in the order in which they stand.
pub open spec fn tokens(name: Seq<char>) -> Seq<Seq<char>> {
    text::split(text::lowercase(name), not_alphanumeric()).filter(indexable())
}

/// Lower-case alphanumeric runs of a name, at least two characters long.
/// "svc/metering-api" -> ["svc", "metering", "api"].
pub fn name_tokens(name: &str) -> (res: Vec<String>)
    ensures
        text::views(res@) == tokens(name@),
{
    let low = name.to_lowercase();
    let v = chars_of(low.as_str());
    let mut out: Vec<String> = Vec::new();
    let mut cur = String::new();
    let mut n: usize = 0;
    let mut i: usize = 0;
    let ghost sep = not_alphanumeric();
    let ghost keep = indexable();
    proof {
        assert(split_state(v@.take(0), sep, keep) =~= text::views(out@));
        assert(text::split(v@.take(0), sep).last() =~= cur@);
    }
    while i < v.len()
        invariant
            i <= v@.len(),
            sep == not_alphanumeric(),
            keep == indexable(),
            text::views(out@) == split_state(v@.take(i as int), sep, keep),
            cur@ == text::split(v@.take(i as int), sep).last(),
            n == cur@.len(),
            n <= i,
        decreases v@.len() - i,
    {
        let x = v[i];
        let ghost before = text::split(v@.take(i as int), sep);
        let ghost after = text::split(v@.take(i + 1), sep);
        proof {
            assert(v@.take(i + 1).drop_last() == v@.take(i as int));
            assert(v@.take(i + 1).last() == x);
            text::lemma_split_nonempty(v@.take(i as int), sep);
        }
        if !x.is_alphanumeric() {
            let ghost o = out@;
            proof {
                assert(after.drop_last() =~= before);
                lemma_filter_last(before, keep);
            }
            if n >= 2 {
                out.push(cur);
                assert(text::views(out@) =~= text::views(o).push(cur@));
            }
            cur = String::new();
            n = 0;
        } else {
            cur.push(x);
            n += 1;
            assert(after.drop_last() =~= before.drop_last());
        }
        i += 1;
    }
    let ghost o = out@;
    proof {
        assert(v@.take(v@.len() as int) == v@);
        text::lemma_split_nonempty(v@, sep);
        lemma_filter_last(text::split(v@, sep), keep);
    }
    if n >= 2 {
        out.push(cur);
        assert(text::views(out@) =~= text::views(o).push(cur@));
    }
    out
}

spec fn split_state(
    s: Seq<char>,
    sep: spec_fn(char) -> bool,
    keep: spec_fn(Seq<char>) -> bool,
) -> Seq<Seq<char>> {
    text::split(s, sep).drop_last().filter(keep)
}

proof fn lemma_filter_last(s: Seq<Seq<char>>, keep: spec_fn(Seq<char>) -> bool)
    requires
        s.len() > 0,
    ensures
        s.filter(keep) == (if keep(s.last()) {
            s.drop_last().filter(keep).push(s.last())
        } else {
            s.drop_last().filter(keep)
        }),
{
    reveal(Seq::filter);
}

/// A token and the nodes whose names hold it, in ascending order.
pub type Posting = (Seq<char>, Seq<u32>);

pub open spec fn push_new(ids: Seq<u32>, id: u32) -> Seq<u32> {
    if ids.len() > 0 && ids.last() == id {
        ids
    } else {
        ids.push(id)
    }
}

/// The index with `id` posted under `tok`.
pub open spec fn posted(ix: Seq<Posting>, tok: Seq<char>, id: u32) -> Seq<Posting>
    decreases ix.len(),
{
    if ix.len() == 0 || text::text_lt(ix.last().0, tok) {
        ix.push((tok, seq![id]))
    } else if ix.last().0 == tok {
        ix.drop_last().push((tok, push_new(ix.last().1, id)))
    } else {
        posted(ix.drop_last(), tok, id).push(ix.last())
    }
}

/// The index with `id` posted under each of `toks`.
pub open spec fn posted_all(ix: Seq<Posting>, toks: Seq<Seq<char>>, id: u32) -> Seq<Posting>
    decreases toks.len(),
{
    if toks.len() == 0 {
        ix
    } else {
        posted(posted_all(ix, toks.drop_last(), id), toks.last(), id)
    }
}

/// The index of a list of names, each posted by its position.
pub open spec fn token_index(names: Seq<Seq<char>>) -> Seq<Posting>
    decreases names.len(),
{
    if names.len() == 0 {
        Seq::empty()
    } else {
        posted_all(
            token_index(names.drop_last()),
            tokens(names.last()),
            (names.len() - 1) as u32,
        )
    }
}

pub open spec fn ascending(ids: Seq<u32>) -> bool {
    forall|i: int, j: int| 0 <= i < j < ids.len() ==> ids[i] < ids[j]
}

/// Tokens in strict order; under each, ids below `n` in ascending order.
pub open spec fn index_ordered(ix: Seq<Posting>, n: int) -> bool {
    &&& forall|i: int, j: int|
        0 <= i < j < ix.len() ==> #[trigger] text::text_lt(ix[i].0, ix[j].0)
    &&& forall|i: int| 0 <= i < ix.len() ==> ascending((#[trigger] ix[i]).1)
    &&& forall|i: int, j: int|
        0 <= i < ix.len() && 0 <= j < ix[i].1.len() ==> #[trigger] ix[i].1[j] < n
}

/// Posting at the first entry that does not come before the token.
proof fn lemma_posted_at(ix: Seq<Posting>, tok: Seq<char>, id: u32, p: int)
    requires
        0 <= p <= ix.len(),
        forall|i: int, j: int|
            0 <= i < j < ix.len() ==> #[trigger] text::text_lt(ix[i].0, ix[j].0),
        forall|i: int| 0 <= i < p ==> #[trigger] text::text_lt(ix[i].0, tok),
        forall|i: int| p <= i < ix.len() ==> !#[trigger] text::text_lt(ix[i].0, tok),
    ensures
        posted(ix, tok, id) == (if p < ix.len() && ix[p].0 == tok {
            ix.update(p, (tok, push_new(ix[p].1, id)))
        } else {
            ix.insert(p, (tok, seq![id]))
        }),
    decreases ix.len(),
{
    if ix.len() == 0 || text::text_lt(ix.last().0, tok) {
        assert(ix.len() > 0 ==> text::text_lt(ix[ix.len() - 1].0, tok));
        assert(p == ix.len());
        assert(ix.insert(p, (tok, seq![id])) =~= ix.push((tok, seq![id])));
    } else if ix.last().0 == tok {
        if p < ix.len() - 1 {
            assert(text::text_lt(ix[p].0, ix[ix.len() - 1].0));
        }
        assert(p == ix.len() - 1);
        assert(ix.drop_last().push((tok, push_new(ix.last().1, id))) =~= ix.update(
            p,
            (tok, push_new(ix[p].1, id)),
        ));
    } else {
        let front = ix.drop_last();
        assert(p < ix.len());
        if p == ix.len() - 1 {
            assert forall|i: int| p <= i < front.len() implies !#[trigger] text::text_lt(
                front[i].0,
                tok,
            ) by {}
        }
        lemma_posted_at(front, tok, id, p);
        if p < ix.len() && ix[p].0 == tok {
            assert(posted(front, tok, id).push(ix.last()) =~= ix.update(
                p,
                (tok, push_new(ix[p].1, id)),
            ));
        } else {
            assert(posted(front, tok, id).push(ix.last()) =~= ix.insert(p, (tok, seq![id])));
        }
    }
}

/// Posting an id that is not below `n` keeps the index ordered.
pub(crate) proof fn lemma_posted_ordered(ix: Seq<Posting>, tok: Seq<char>, id: u32, p: int)
    requires
        0 <= p <= ix.len(),
        index_ordered(ix, id + 1),
        forall|i: int| 0 <= i < p ==> #[trigger] text::text_lt(ix[i].0, tok),
        forall|i: int| p <= i < ix.len() ==> !#[trigger] text::text_lt(ix[i].0, tok),
    ensures
        index_ordered(posted(ix, tok, id), id + 1),
{
    lemma_posted_at(ix, tok, id, p);
    let r = posted(ix, tok, id);
    if p < ix.len() && ix[p].0 == tok {
        assert forall|i: int, j: int| 0 <= i < j < r.len() implies #[trigger] text::text_lt(
            r[i].0,
            r[j].0,
        ) by {
            assert(text::text_lt(ix[i].0, ix[j].0));
        }
        assert forall|i: int| 0 <= i < r.len() implies ascending((#[trigger] r[i]).1) by {
            assert(ascending(ix[i].1));
            if i == p {
                let ids = ix[p].1;
                assert forall|a: int, b: int| 0 <= a < b < r[i].1.len() implies r[i].1[a] < r[i].1[b] by {
                    if b == ids.len() {
                        assert(ids[a] < id + 1);
                        assert(ids[ids.len() - 1] < id + 1);
                        if a < ids.len() - 1 {
                            assert(ids[a] < ids[ids.len() - 1]);
                        }
                    }
                }
            }
        }
        assert forall|i: int, j: int| 0 <= i < r.len() && 0 <= j < r[i].1.len() implies #[trigger] r[i].1[j]
            < id + 1 by {
            if j < ix[i].1.len() {
                assert(ix[i].1[j] < id + 1);
            }
        }
    } else {
        assert forall|i: int, j: int| 0 <= i < j < r.len() implies #[trigger] text::text_lt(
            r[i].0,
            r[j].0,
        ) by {
            if i < p && j == p {
                assert(text::text_lt(ix[i].0, tok));
            } else if i == p {
                assert(!text::text_lt(ix[j - 1].0, tok));
                text::lemma_text_lt_total(ix[j - 1].0, tok);
                if ix[j - 1].0 == tok {
                    assert(j - 1 > p);
                    assert(text::text_lt(ix[p].0, ix[j - 1].0));
                    assert(!text::text_lt(ix[p].0, tok));
                }
            } else if i < p && j > p {
                assert(text::text_lt(ix[i].0, ix[j - 1].0));
            } else if i > p {
                assert(text::text_lt(ix[i - 1].0, ix[j - 1].0));
            } else {
                assert(text::text_lt(ix[i].0, ix[j].0));
            }
        }
        assert forall|i: int| 0 <= i < r.len() implies ascending((#[trigger] r[i]).1) by {
            if i < p {
                assert(ascending(ix[i].1));
            } else if i > p {
                assert(ascending(ix[i - 1].1));
            }
        }
        assert forall|i: int, j: int| 0 <= i < r.len() && 0 <= j < r[i].1.len() implies #[trigger] r[i].1[j]
            < id + 1 by {
            if i < p {
                assert(ix[i].1[j] < id + 1);
            } else if i > p {
                assert(ix[i - 1].1[j] < id + 1);
            }
        }
    }
}

/// One entry of the index.
pub struct Entry {
    tok: String,
    ids: Vec<u32>,
}

impl View for Entry {
    type V = Posting;

    closed spec fn view(&self) -> Posting {
        (self.tok@, self.ids@)
    }
}

/// Tokens in order, each with the nodes that hold it, so that the tokens with
/// a common prefix stand side by side.
pub struct NameIndex {
    entries: Vec<Entry>,
}

impl View for NameIndex {
    type V = Seq<Posting>;

    closed spec fn view(&self) -> Seq<Posting> {
        self.entries@.map_values(|e: Entry| e@)
    }
}

impl NameIndex {
    pub fn new() -> (res: Self)
        ensures
            res@ == Seq::<Posting>::empty(),
    {
        let res = NameIndex { entries: Vec::new() };
        assert(res@ =~= Seq::<Posting>::empty());
        res
    }

    /// The position of the first token that does not come before `tok`.
    fn lower_bound(&self, tok: &str) -> (p: usize)
        requires
            forall|i: int, j: int|
                0 <= i < j < self@.len() ==> #[trigger] text::text_lt(self@[i].0, self@[j].0),
        ensures
            p <= self@.len(),
            forall|i: int| 0 <= i < p ==> #[trigger] text::text_lt(self@[i].0, tok@),
            forall|i: int| p <= i < self@.len() ==> !#[trigger] text::text_lt(self@[i].0, tok@),
    {
        let mut lo: usize = 0;
        let mut hi: usize = self.entries.len();
        while lo < hi
            invariant
                lo <= hi <= self@.len(),
                forall|i: int, j: int|
                    0 <= i < j < self@.len() ==> #[trigger] text::text_lt(self@[i].0, self@[j].0),
                forall|i: int| 0 <= i < lo ==> #[trigger] text::text_lt(self@[i].0, tok@),
                forall|i: int| hi <= i < self@.len() ==> !#[trigger] text::text_lt(self@[i].0, tok@),
            decreases hi - lo,
        {
            let mid: usize = lo + (hi - lo) / 2;
            let less = text_less(self.entries[mid].tok.as_str(), tok);
            assert(self@[mid as int].0 == self.entries@[mid as int].tok@);
            if less {
                assert forall|i: int| 0 <= i < mid + 1 implies #[trigger] text::text_lt(
                    self@[i].0,
                    tok@,
                ) by {
                    if i < mid {
                        assert(text::text_lt(self@[i].0, self@[mid as int].0));
                        text::lemma_text_lt_trans(self@[i].0, self@[mid as int].0, tok@);
                    }
                }
                lo = mid + 1;
            } else {
                assert forall|i: int| mid <= i < self@.len() implies !#[trigger] text::text_lt(
                    self@[i].0,
                    tok@,
                ) by {
                    if i > mid && text::text_lt(self@[i].0, tok@) {
                        assert(text::text_lt(self@[mid as int].0, self@[i].0));
                        text::lemma_text_lt_trans(self@[mid as int].0, self@[i].0, tok@);
                    }
                }
                hi = mid;
            }
        }
        lo
    }

    /// Posts `id`, which no earlier id exceeds, under `tok`.
    pub fn post(&mut self, tok: String, id: u32)
        requires
            index_ordered(old(self)@, id + 1),
        ensures
            final(self)@ == posted(old(self)@, tok@, id),
            index_ordered(final(self)@, id + 1),
    {
        let p = self.lower_bound(tok.as_str());
        let ghost before = self@;
        proof {
            lemma_posted_at(before, tok@, id, p as int);
            lemma_posted_ordered(before, tok@, id, p as int);
        }
        if p < self.entries.len() && same_text(self.entries[p].tok.as_str(), tok.as_str()) {
            assert(before[p as int] == self.entries@[p as int]@);
            let n: usize = self.entries[p].ids.len();
            if n == 0 || self.entries[p].ids[n - 1] != id {
                self.entries[p].ids.push(id);
            }
            assert(self@ =~= before.update(p as int, (tok@, push_new(before[p as int].1, id))));
        } else {
            assert(p < before.len() ==> before[p as int] == self.entries@[p as int]@);
            let mut ids: Vec<u32> = Vec::new();
            ids.push(id);
            assert(ids@ =~= seq![id]);
            let e = Entry { tok, ids };
            assert(e@ == (tok@, seq![id]));
            self.entries.insert(p, e);
            assert(self@ =~= before.insert(p as int, (tok@, seq![id])));
        }
    }

    /// Posts `id` under every token of `name`; returns what the entries cost.
    pub fn post_name(&mut self, name: &str, id: u32, bytes: usize) -> (res: usize)
        requires
            index_ordered(old(self)@, id as int),
        ensures
            final(self)@ == posted_all(old(self)@, tokens(name@), id),
            index_ordered(final(self)@, id + 1),
            res == tokens_cost(bytes as nat, tokens(name@)),
    {
        let toks = name_tokens(name);
        let ghost all = tokens(name@);
        let ghost start = self@;
        let mut cost: usize = bytes;
        let mut i: usize = 0;
        while i < toks.len()
            invariant
                i <= toks@.len(),
                text::views(toks@) == all,
                self@ == posted_all(start, all.take(i as int), id),
                index_ordered(self@, id + 1),
                cost == tokens_cost(bytes as nat, all.take(i as int)),
            decreases toks@.len() - i,
        {
            let n: usize = byte_len(toks[i].as_str());
            proof {
                assert(all[i as int] == toks@[i as int]@);
                assert(all.take(i + 1).drop_last() =~= all.take(i as int));
                assert(all.take(i + 1).last() == all[i as int]);
            }
            cost = cost.saturating_add(n).saturating_add(28);
            let tok = toks[i].clone();
            self.post(tok, id);
            i += 1;
        }
        assert(all.take(all.len() as int) =~= all);
        cost
    }
}

/// Addition that stops at the largest `usize`.
pub open spec fn saturating(a: nat, b: nat) -> nat {
    if a + b > usize::MAX {
        usize::MAX as nat
    } else {
        a + b
    }
}

/// An estimate of memory with the entries for `toks` added to it.
pub open spec fn tokens_cost(bytes: nat, toks: Seq<Seq<char>>) -> nat
    decreases toks.len(),
{
    if toks.len() == 0 {
        bytes
    } else {
        saturating(tokens_cost(bytes, toks.drop_last()), text::utf8_len(toks.last()) + 28)
    }
}

/// The ids under the tokens from position `i` on that `q` begins, joined to
/// `hits`. Tokens before `q` are passed over; the walk ends at the first
/// later token that `q` does not begin, or once `cap` ids are held.
pub open spec fn scan(ix: Seq<Posting>, i: int, q: Seq<char>, hits: Set<u32>, cap: nat) -> Set<u32>
    decreases ix.len() - i,
{
    if i < 0 || i >= ix.len() {
        hits
    } else if text::text_lt(ix[i].0, q) {
        scan(ix, i + 1, q, hits, cap)
    } else if !q.is_prefix_of(ix[i].0) {
        hits
    } else {
        let more = hits.union(ix[i].1.to_set());
        if more.len() >= cap {
            more
        } else {
            scan(ix, i + 1, q, more, cap)
        }
    }
}

/// The ids that the query tokens lead to, one query after the other.
pub open spec fn token_hits(ix: Seq<Posting>, queries: Seq<Seq<char>>, cap: nat) -> Set<u32>
    decreases queries.len(),
{
    if queries.len() == 0 {
        Set::empty()
    } else {
        let hits = token_hits(ix, queries.drop_last(), cap);
        let q = text::lowercase(queries.last());
        if q.len() == 0 {
            hits
        } else {
            scan(ix, 0, q, hits, cap)
        }
    }
}

proof fn lemma_scan_below(ix: Seq<Posting>, i: int, q: Seq<char>, hits: Set<u32>, cap: nat, n: int)
    requires
        0 <= i,
        index_ordered(ix, n),
        forall|x: u32| #[trigger] hits.contains(x) ==> x < n,
    ensures
        forall|x: u32| #[trigger] scan(ix, i, q, hits, cap).contains(x) ==> x < n,
    decreases ix.len() - i,
{
    let res = scan(ix, i, q, hits, cap);
    if i >= ix.len() {
        assert(res == hits);
    } else if text::text_lt(ix[i].0, q) {
        lemma_scan_below(ix, i + 1, q, hits, cap, n);
        assert(res == scan(ix, i + 1, q, hits, cap));
    } else if !q.is_prefix_of(ix[i].0) {
        assert(res == hits);
    } else {
        let more = hits.union(ix[i].1.to_set());
        assert forall|x: u32| #[trigger] more.contains(x) implies x < n by {
            if !hits.contains(x) {
                let j = ix[i].1.index_of(x);
                assert(ix[i].1[j] < n);
            }
        }
        lemma_scan_below(ix, i + 1, q, more, cap, n);
        assert(res == more || res == scan(ix, i + 1, q, more, cap));
    }
}

/// Searching leads only to ids that the index holds.
pub proof fn lemma_hits_below(ix: Seq<Posting>, queries: Seq<Seq<char>>, cap: nat, n: int)
    requires
        index_ordered(ix, n),
    ensures
        forall|x: u32| #[trigger] token_hits(ix, queries, cap).contains(x) ==> x < n,
    decreases queries.len(),
{
    if queries.len() > 0 {
        lemma_hits_below(ix, queries.drop_last(), cap, n);
        let hits = token_hits(ix, queries.drop_last(), cap);
        lemma_scan_below(ix, 0, text::lowercase(queries.last()), hits, cap, n);
    }
}

/// `res` holds the `limit` smallest members of `hits` (all of them where there
/// are fewer), in ascending order.
pub open spec fn smallest(res: Seq<u32>, hits: Set<u32>, limit: nat) -> bool {
    &&& ascending(res)
    &&& forall|x: u32| #[trigger] res.contains(x) ==> hits.contains(x)
    &&& res.len() == (if hits.len() < limit {
        hits.len()
    } else {
        limit
    })
    &&& forall|x: u32, k: int|
        #[trigger] hits.contains(x) && !res.contains(x) && 0 <= k < res.len() ==> #[trigger] res[k] < x
}

proof fn lemma_ascending_set(v: Seq<u32>)
    requires
        ascending(v),
    ensures
        v.no_duplicates(),
        v.to_set().len() == v.len(),
        v.to_set().finite(),
{
    v.unique_seq_to_set();
}

/// The members of two ascending lists, in ascending order, each once.
fn merge(a: &Vec<u32>, b: &Vec<u32>) -> (res: Vec<u32>)
    requires
        ascending(a@),
        ascending(b@),
    ensures
        ascending(res@),
        res@.to_set() == a@.to_set().union(b@.to_set()),
{
    let mut out: Vec<u32> = Vec::new();
    let mut i: usize = 0;
    let mut j: usize = 0;
    while i < a.len() || j < b.len()
        invariant
            i <= a@.len(),
            j <= b@.len(),
            ascending(a@),
            ascending(b@),
            ascending(out@),
            forall|k: int, m: int| 0 <= k < out@.len() && i <= m < a@.len() ==> out@[k] < a@[m],
            forall|k: int, m: int| 0 <= k < out@.len() && j <= m < b@.len() ==> out@[k] < b@[m],
            forall|k: int|
                0 <= k < out@.len() ==> a@.contains(#[trigger] out@[k]) || b@.contains(out@[k]),
            forall|m: int| 0 <= m < i ==> out@.contains(#[trigger] a@[m]),
            forall|m: int| 0 <= m < j ==> out@.contains(#[trigger] b@[m]),
        decreases a@.len() - i + b@.len() - j,
    {
        let ghost before = out@;
        let take_a = j >= b.len() || (i < a.len() && a[i] <= b[j]);
        let take_b = i >= a.len() || (j < b.len() && b[j] <= a[i]);
        if take_a {
            let x: u32 = a[i];
            out.push(x);
            assert(a@.contains(a@[i as int]));
            i += 1;
            if take_b {
                j += 1;
            }
        } else {
            let x: u32 = b[j];
            out.push(x);
            assert(b@.contains(b@[j as int]));
            j += 1;
        }
        proof {
            assert(out@.contains(out@[before.len() as int]));
            assert forall|x: u32| before.contains(x) implies out@.contains(x) by {
                let k = before.index_of(x);
                assert(out@[k] == x);
            }
            assert forall|k: int| 0 <= k < out@.len() implies a@.contains(#[trigger] out@[k])
                || b@.contains(out@[k]) by {
                if k < before.len() {
                    assert(out@[k] == before[k]);
                }
            }
        }
    }
    assert(out@.to_set() =~= a@.to_set().union(b@.to_set())) by {
        assert forall|x: u32| out@.contains(x) == (a@.contains(x) || b@.contains(x)) by {
            if a@.contains(x) {
                let m = a@.index_of(x);
                assert(out@.contains(a@[m]));
            }
            if b@.contains(x) {
                let m = b@.index_of(x);
                assert(out@.contains(b@[m]));
            }
        }
    }
    out
}

proof fn lemma_scan_skips(ix: Seq<Posting>, i: int, p: int, q: Seq<char>, hits: Set<u32>, cap: nat)
    requires
        0 <= i <= p <= ix.len(),
        forall|k: int| 0 <= k < p ==> #[trigger] text::text_lt(ix[k].0, q),
    ensures
        scan(ix, i, q, hits, cap) == scan(ix, p, q, hits, cap),
    decreases p - i,
{
    if i < p {
        assert(text::text_lt(ix[i].0, q));
        lemma_scan_skips(ix, i + 1, p, q, hits, cap);
    }
}

impl NameIndex {
    /// Joins the ids under the tokens that `q` begins to `hits`.
    fn collect(&self, q: &str, hits: Vec<u32>, cap: usize) -> (res: Vec<u32>)
        requires
            index_ordered(self@, u32::MAX + 1),
            ascending(hits@),
        ensures
            ascending(res@),
            res@.to_set() == scan(self@, 0, q@, hits@.to_set(), cap as nat),
    {
        let p = self.lower_bound(q);
        let mut out = hits;
        let mut i: usize = p;
        proof {
            lemma_scan_skips(self@, 0, p as int, q@, hits@.to_set(), cap as nat);
        }
        while i < self.entries.len()
            invariant
                p <= i <= self.entries@.len(),
                self@.len() == self.entries@.len(),
                index_ordered(self@, u32::MAX + 1),
                forall|k: int| p <= k < self@.len() ==> !#[trigger] text::text_lt(self@[k].0, q@),
                ascending(out@),
                scan(self@, 0, q@, hits@.to_set(), cap as nat) == scan(
                    self@,
                    i as int,
                    q@,
                    out@.to_set(),
                    cap as nat,
                ),
            decreases self.entries@.len() - i,
        {
            assert(self@[i as int] == self.entries@[i as int]@);
            assert(!text::text_lt(self@[i as int].0, q@));
            if !has_prefix(self.entries[i].tok.as_str(), q) {
                return out;
            }
            assert(ascending(self@[i as int].1));
            out = merge(&out, &self.entries[i].ids);
            proof {
                lemma_ascending_set(out@);
            }
            if out.len() >= cap {
                return out;
            }
            i += 1;
        }
        out
    }

    /// The `limit` smallest ids that the query tokens lead to.
    pub fn find(&self, queries: &Vec<String>, limit: usize) -> (res: Vec<u32>)
        requires
            index_ordered(self@, u32::MAX + 1),
        ensures
            smallest(
                res@,
                token_hits(self@, text::views(queries@), hit_cap(limit)),
                limit as nat,
            ),
    {
        let cap: usize = if limit > usize::MAX / 4 { usize::MAX } else { limit * 4 };
        let ghost qs = text::views(queries@);
        let mut hits: Vec<u32> = Vec::new();
        let mut i: usize = 0;
        assert(hits@.to_set() =~= Set::empty());
        while i < queries.len()
            invariant
                i <= queries@.len(),
                qs == text::views(queries@),
                index_ordered(self@, u32::MAX + 1),
                ascending(hits@),
                cap == hit_cap(limit),
                hits@.to_set() == token_hits(self@, qs.take(i as int), cap as nat),
            decreases queries@.len() - i,
        {
            proof {
                assert(qs.take(i + 1).drop_last() =~= qs.take(i as int));
                assert(qs.take(i + 1).last() == queries@[i as int]@);
            }
            let q = queries[i].to_lowercase();
            if !q.as_str().is_empty() {
                hits = self.collect(q.as_str(), hits, cap);
            }
            i += 1;
        }
        assert(qs.take(qs.len() as int) =~= qs);
        proof {
            lemma_ascending_set(hits@);
        }
        let ghost all = hits@;
        if hits.len() > limit {
            hits.truncate(limit);
        }
        proof {
            assert forall|x: u32| #[trigger] hits@.contains(x) implies all.to_set().contains(x) by {
                let k = hits@.index_of(x);
                assert(all[k] == x);
            }
            assert forall|x: u32, k: int|
                #[trigger] all.to_set().contains(x) && !hits@.contains(x) && 0 <= k
                    < hits@.len() implies #[trigger] hits@[k] < x by {
                let m = all.index_of(x);
                if m < hits@.len() {
                    assert(hits@[m] == x);
                }
            }
        }
        hits
    }
}

/// How many ids a search holds before it stops walking on: four times the
/// limit, or the largest `usize`.
pub open spec fn hit_cap(limit: usize) -> nat {
    if limit * 4 > usize::MAX {
        usize::MAX as nat
    } else {
        (limit * 4) as nat
    }
}

} // verus!
