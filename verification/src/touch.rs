//! Files that are touched together: a sliding window over the files touched
//! last, and the links that git history gives.

use crate::graph::Op;
use crate::json::{Json, JsonV};
use crate::model::{OpV, Ts};
use crate::query;
use crate::records;
use crate::snapshot;
use crate::snapshot::{record_ops, OpSink};
use crate::text;
use crate::text::{same_text, split_text, trim_text};
use vstd::prelude::*;

verus! {

pub open spec fn other_than(path: Seq<char>) -> spec_fn(Seq<char>) -> bool {
    |p: Seq<char>| p != path
}

pub open spec fn paired(path: Seq<char>) -> spec_fn(Seq<char>) -> (Seq<char>, Seq<char>) {
    |p: Seq<char>| (path, p)
}

/// The first `n` members, or all where there are fewer.
pub open spec fn first<A>(s: Seq<A>, n: nat) -> Seq<A> {
    if s.len() <= n {
        s
    } else {
        s.take(n as int)
    }
}

/// The window after one more touch: the path first, then the others as they
/// were.
pub open spec fn touched(recent: Seq<Seq<char>>, path: Seq<char>, span: nat) -> Seq<Seq<char>> {
    first(seq![path] + recent.filter(other_than(path)), span)
}

proof fn lemma_filter_distinct(s: Seq<Seq<char>>, path: Seq<char>)
    requires
        s.no_duplicates(),
    ensures
        s.filter(other_than(path)).no_duplicates(),
        !s.filter(other_than(path)).contains(path),
        forall|x: Seq<char>| #[trigger]
            s.filter(other_than(path)).contains(x) ==> s.contains(x),
    decreases s.len(),
{
    let p = other_than(path);
    reveal(Seq::filter);
    if s.len() > 0 {
        let before = s.drop_last();
        assert(before.no_duplicates());
        lemma_filter_distinct(before, path);
        let f = before.filter(p);
        assert forall|x: Seq<char>| #[trigger] s.filter(p).contains(x) implies s.contains(x) by {
            let k = s.filter(p).index_of(x);
            if k < f.len() {
                assert(f[k] == x);
                assert(f.contains(x));
                assert(before.contains(x));
                let j = before.index_of(x);
                assert(s[j] == x);
            } else {
                assert(x == s.last());
                assert(s[s.len() - 1] == x);
            }
        }
        if p(s.last()) {
            assert(!f.contains(s.last())) by {
                if f.contains(s.last()) {
                    assert(before.contains(s.last()));
                    let j = before.index_of(s.last());
                    assert(s[j] == s[s.len() - 1]);
                }
            }
            assert(s.filter(p) =~= f.push(s.last()));
            assert forall|i: int, j: int|
                0 <= i < j < s.filter(p).len() implies s.filter(p)[i] != s.filter(p)[j] by {
                if j == f.len() {
                    assert(f.contains(f[i]));
                }
            }
            if s.filter(p).contains(path) {
                let k = s.filter(p).index_of(path);
                if k < f.len() {
                    assert(f.contains(f[k]));
                }
            }
        }
    }
}

/// A window of distinct paths, no more than the span, stays one.
pub proof fn window_stays_distinct_and_bounded(
    recent: Seq<Seq<char>>,
    path: Seq<char>,
    span: nat,
)
    requires
        recent.no_duplicates(),
    ensures
        touched(recent, path, span).no_duplicates(),
        touched(recent, path, span).len() <= span,
        span > 0 ==> touched(recent, path, span)[0] == path,
{
    lemma_filter_distinct(recent, path);
    let rest = recent.filter(other_than(path));
    let all = seq![path] + rest;
    assert forall|i: int, j: int| 0 <= i < j < all.len() implies all[i] != all[j] by {
        assert(all[j] == rest[j - 1]);
        assert(rest.contains(rest[j - 1]));
        if i > 0 {
            assert(all[i] == rest[i - 1]);
        }
    }
}

/// The paths touched last, newest first, each once.
pub struct TouchWindow {
    span: usize,
    recent: Vec<String>,
}

impl View for TouchWindow {
    type V = Seq<Seq<char>>;

    closed spec fn view(&self) -> Seq<Seq<char>> {
        text::views(self.recent@)
    }
}

impl TouchWindow {
    /// How many paths the window holds at most.
    pub closed spec fn span_of(&self) -> nat {
        self.span as nat
    }

    pub fn new(n: usize) -> (res: Self)
        ensures
            res@ == Seq::<Seq<char>>::empty(),
            res.span_of() == n,
    {
        let res = TouchWindow { span: n, recent: Vec::new() };
        assert(res@ =~= Seq::empty());
        res
    }

    /// Slides the window and returns the path paired with the others in it,
    /// newest first.
    pub fn record(&mut self, path: &str) -> (res: Vec<(String, String)>)
        ensures
            query::pair_views(res@) == old(self)@.filter(other_than(path@)).map_values(
                paired(path@),
            ),
            final(self)@ == touched(old(self)@, path@, old(self).span_of()),
            final(self).span_of() == old(self).span_of(),
    {
        let ghost before = text::views(self.recent@);
        let ghost p = other_than(path@);
        let ghost f = paired(path@);
        let span: usize = self.span;
        let mut pairs: Vec<(String, String)> = Vec::new();
        let mut next: Vec<String> = Vec::new();
        if span > 0 {
            next.push(path.to_owned());
        }
        let ghost all = seq![path@];
        let mut i: usize = 0;
        proof {
            reveal(Seq::filter);
            assert(query::pair_views(pairs@) =~= before.take(0).filter(p).map_values(f));
            assert(text::views(next@) =~= first(
                all + before.take(0).filter(p),
                span as nat,
            ));
        }
        while i < self.recent.len()
            invariant
                i <= self.recent@.len(),
                span == self.span,
                *self == *old(self),
                before == text::views(self.recent@),
                all == seq![path@],
                p == other_than(path@),
                f == paired(path@),
                query::pair_views(pairs@) == before.take(i as int).filter(p).map_values(f),
                text::views(next@) == first(all + before.take(i as int).filter(p), span as nat),
            decreases self.recent@.len() - i,
        {
            let other = self.recent[i].as_str();
            let ghost done = before.take(i as int).filter(p);
            proof {
                assert(before[i as int] == other@);
                query::lemma_filter_step(before, i as int, p);
                query::lemma_map_push(done, other@, f);
            }
            if !same_text(other, path) {
                let ghost o = pairs@;
                let pair = (path.to_owned(), other.to_owned());
                pairs.push(pair);
                assert(query::pair_views(pairs@) =~= query::pair_views(o).push((path@, other@)));
                let ghost n = next@;
                if next.len() < span {
                    next.push(other.to_owned());
                    proof {
                        query::lemma_views_push(n, next@[n.len() as int]);
                        assert(text::views(n).len() == n.len());
                    }
                }
                proof {
                    assert(text::views(n).len() == n.len());
                    assert(all + done.push(other@) =~= (all + done).push(other@));
                    assert(text::views(next@) =~= first(all + done.push(other@), span as nat));
                }
            }
            i += 1;
        }
        assert(before.take(before.len() as int) =~= before);
        self.recent = next;
        pairs
    }
}

pub open spec fn file_node(name: Seq<char>, ts: Ts) -> OpV {
    OpV::ObserveNode {
        name,
        asset_type: "file"@,
        props: JsonV::Obj(Seq::empty()),
        ts,
        origin: Some("mcp"@),
    }
}

pub open spec fn co_edit(src: Seq<char>, dst: Seq<char>, ts: Ts) -> OpV {
    OpV::ObserveEdge { src, dst, kind: "CO_EDITED"@, ts, origin: Some("mcp"@) }
}

fn file_node_op(name: &str, ts: Ts) -> (res: Op)
    ensures
        res@ == file_node(name@, ts),
{
    let props = Json::Obj(Vec::new());
    proof {
        crate::json::lemma_json_view(props);
        assert(crate::json::fields_view(props->Obj_0@) =~= Seq::empty());
    }
    Op::ObserveNode {
        name: name.to_owned(),
        asset_type: "file".to_owned(),
        props,
        ts,
        origin: Some("mcp".to_owned()),
    }
}

fn co_edit_op(src: &str, dst: &str, ts: Ts) -> (res: Op)
    ensures
        res@ == co_edit(src@, dst@, ts),
{
    Op::ObserveEdge {
        src: src.to_owned(),
        dst: dst.to_owned(),
        kind: "CO_EDITED".to_owned(),
        ts,
        origin: Some("mcp".to_owned()),
    }
}

/// The mutations that link a path to the others of its window.
pub open spec fn links(pairs: Seq<(Seq<char>, Seq<char>)>, ts: Ts) -> Seq<OpV>
    decreases pairs.len(),
{
    if pairs.len() == 0 {
        Seq::empty()
    } else {
        let (src, dst) = pairs.last();
        links(pairs.drop_last(), ts).push(file_node(dst, ts)).push(co_edit(src, dst, ts))
    }
}

/// The mutations of one touch.
pub open spec fn touch_ops(path: Seq<char>, recent: Seq<Seq<char>>, ts: Ts) -> Seq<OpV> {
    seq![file_node(path, ts)] + links(
        recent.filter(other_than(path)).map_values(paired(path)),
        ts,
    )
}

fn link_ops(path: &str, pairs: &Vec<(String, String)>, ts: Ts) -> (res: Vec<Op>)
    ensures
        snapshot::op_views(res@) == seq![file_node(path@, ts)] + links(
            query::pair_views(pairs@),
            ts,
        ),
{
    let ghost ps = query::pair_views(pairs@);
    let mut ops: Vec<Op> = Vec::new();
    ops.push(file_node_op(path, ts));
    let ghost head = seq![file_node(path@, ts)];
    let mut i: usize = 0;
    assert(snapshot::op_views(ops@) =~= head + links(ps.take(0), ts));
    while i < pairs.len()
        invariant
            i <= pairs@.len(),
            ps == query::pair_views(pairs@),
            snapshot::op_views(ops@) == head + links(ps.take(i as int), ts),
        decreases pairs@.len() - i,
    {
        let (src, dst) = &pairs[i];
        let ghost o = ops@;
        proof {
            assert(ps.take(i + 1).drop_last() =~= ps.take(i as int));
            assert(ps.take(i + 1).last() == (src@, dst@));
        }
        ops.push(file_node_op(dst.as_str(), ts));
        ops.push(co_edit_op(src.as_str(), dst.as_str(), ts));
        assert(snapshot::op_views(ops@) =~= snapshot::op_views(o).push(file_node(dst@, ts)).push(
            co_edit(src@, dst@, ts),
        ));
        i += 1;
        assert(snapshot::op_views(ops@) =~= head + links(ps.take(i as int), ts));
    }
    assert(ps.take(ps.len() as int) =~= ps);
    ops
}

/// Observes a touched file and its links to the files touched before it. A
/// database that takes no more writes stays as it is, and so does the window.
pub fn ingest_touch<S: OpSink>(
    sink: &mut S,
    window: &mut TouchWindow,
    wedged: bool,
    path: &str,
    ts: Ts,
) -> (res: Result<(), String>)
    requires
        old(sink).sink_wf(),
    ensures
        final(sink).sink_wf(),
        final(window).span_of() == old(window).span_of(),
        final(window)@ == (if wedged {
            old(window)@
        } else {
            touched(old(window)@, path@, old(window).span_of())
        }),
        ({
            let ops = if wedged {
                Seq::empty()
            } else {
                touch_ops(path@, old(window)@, ts)
            };
            &&& snapshot::fed(*old(sink), *final(sink), ops, snapshot::error_of(res))
            &&& S::steady() ==> {
                let (g, ok) = snapshot::run(old(sink).model(), ops);
                &&& final(sink).model() == g
                &&& final(sink).journal() == snapshot::extended(
                    old(sink).journal(),
                    snapshot::accepted(old(sink).model(), ops),
                )
                &&& match res {
                    Ok(_) => ok,
                    Err(e) => !ok && e@ == "graph is full: no ids are left"@,
                }
            }
        }),
{
    if wedged {
        proof {
            sink.lemma_journal();
            snapshot::lemma_extended(sink.journal(), Seq::empty(), Seq::empty());
        }
        return Ok(());
    }
    let pairs = window.record(path);
    let ops = link_ops(path, &pairs, ts);
    record_ops(sink, ops)
}

pub open spec fn trim_of() -> spec_fn(Seq<char>) -> Seq<char> {
    |s: Seq<char>| text::trimmed(s)
}

/// The files of one commit: at most five lines that are not blank.
pub open spec fn commit_files(commit: Seq<char>) -> Seq<Seq<char>> {
    first(records::lines(commit).map_values(trim_of()).filter(text::not_empty()), 5)
}

pub open spec fn co_edits_of(src: Seq<char>, ts: Ts) -> spec_fn(Seq<char>) -> OpV {
    |dst: Seq<char>| co_edit(src, dst, ts)
}

/// The mutations of the first `n` files of a commit: each file, and its links
/// to the files after it.
pub open spec fn commit_ops(files: Seq<Seq<char>>, n: int, ts: Ts) -> Seq<OpV>
    decreases n,
{
    if n <= 0 {
        Seq::empty()
    } else {
        commit_ops(files, n - 1, ts) + seq![file_node(files[n - 1], ts)] + files.skip(
            n,
        ).map_values(co_edits_of(files[n - 1], ts))
    }
}

/// The mutations of several commits.
pub open spec fn commits_ops(commits: Seq<Seq<char>>, ts: Ts) -> Seq<OpV>
    decreases commits.len(),
{
    if commits.len() == 0 {
        Seq::empty()
    } else {
        let files = commit_files(commits.last());
        commits_ops(commits.drop_last(), ts) + commit_ops(files, files.len() as int, ts)
    }
}

/// The mutations of a history: commits are separated by a null character.
pub open spec fn history_ops(history: Seq<char>, ts: Ts) -> Seq<OpV> {
    commits_ops(text::split_char(history, '\0'), ts)
}

pub open spec fn is_link() -> spec_fn(OpV) -> bool {
    |op: OpV| op is ObserveEdge
}

fn files_of(commit: &str) -> (res: Vec<String>)
    ensures
        text::views(res@) == commit_files(commit@),
{
    let lines = records::lines_of(commit);
    let ghost all = records::lines(commit@).map_values(trim_of());
    let ghost keep = text::not_empty();
    let mut out: Vec<String> = Vec::new();
    let mut i: usize = 0;
    proof {
        reveal(Seq::filter);
        assert(text::views(out@) =~= first(all.take(0).filter(keep), 5));
    }
    while i < lines.len()
        invariant
            i <= lines@.len(),
            text::views(lines@) == records::lines(commit@),
            all == records::lines(commit@).map_values(trim_of()),
            keep == text::not_empty(),
            text::views(out@) == first(all.take(i as int).filter(keep), 5),
        decreases lines@.len() - i,
    {
        let line = trim_text(lines[i].as_str());
        let ghost done = all.take(i as int).filter(keep);
        let ghost o = out@;
        proof {
            assert(text::views(lines@)[i as int] == lines@[i as int]@);
            assert(all[i as int] == line@);
            query::lemma_filter_step(all, i as int, keep);
            assert(text::views(o).len() == o.len());
        }
        if !line.as_str().is_empty() && out.len() < 5 {
            out.push(line);
            proof {
                query::lemma_views_push(o, line);
            }
        }
        proof {
            if line@.len() > 0 {
                assert(text::views(out@) =~= first(done.push(line@), 5));
            }
        }
        i += 1;
    }
    assert(all.take(all.len() as int) =~= all);
    out
}

fn push_commit(ops: &mut Vec<Op>, files: &Vec<String>, ts: Ts)
    ensures
        snapshot::op_views(final(ops)@) == snapshot::op_views(old(ops)@) + commit_ops(
            text::views(files@),
            files@.len() as int,
            ts,
        ),
{
    let ghost base = snapshot::op_views(ops@);
    let ghost fs = text::views(files@);
    let mut i: usize = 0;
    assert(base + commit_ops(fs, 0, ts) =~= base);
    while i < files.len()
        invariant
            i <= files@.len(),
            fs == text::views(files@),
            snapshot::op_views(ops@) == base + commit_ops(fs, i as int, ts),
        decreases files@.len() - i,
    {
        let src = files[i].as_str();
        assert(fs[i as int] == src@);
        let ghost o = ops@;
        ops.push(file_node_op(src, ts));
        let ghost start = snapshot::op_views(o).push(file_node(src@, ts));
        let ghost f = co_edits_of(src@, ts);
        let mut j: usize = i + 1;
        assert(snapshot::op_views(ops@) =~= start + fs.subrange(i + 1, i + 1).map_values(f));
        while j < files.len()
            invariant
                i < j <= files@.len(),
                fs == text::views(files@),
                f == co_edits_of(src@, ts),
                snapshot::op_views(ops@) == start + fs.subrange(i + 1, j as int).map_values(f),
            decreases files@.len() - j,
        {
            let dst = files[j].as_str();
            assert(fs[j as int] == dst@);
            let ghost p = ops@;
            ops.push(co_edit_op(src, dst, ts));
            assert(snapshot::op_views(ops@) =~= snapshot::op_views(p).push(co_edit(src@, dst@, ts)));
            j += 1;
            assert(snapshot::op_views(ops@) =~= start + fs.subrange(i + 1, j as int).map_values(f));
        }
        i += 1;
        assert(fs.subrange(i as int, fs.len() as int) =~= fs.skip(i as int));
        assert(snapshot::op_views(ops@) =~= base + commit_ops(fs, i as int, ts));
    }
}

fn ops_of_history(history: &str, ts: Ts) -> (res: Vec<Op>)
    ensures
        snapshot::op_views(res@) == history_ops(history@, ts),
{
    let commits = split_text(history, '\0');
    let ghost cs = text::views(commits@);
    let mut ops: Vec<Op> = Vec::new();
    let mut i: usize = 0;
    assert(snapshot::op_views(ops@) =~= commits_ops(cs.take(0), ts));
    while i < commits.len()
        invariant
            i <= commits@.len(),
            cs == text::views(commits@),
            snapshot::op_views(ops@) == commits_ops(cs.take(i as int), ts),
        decreases commits@.len() - i,
    {
        let files = files_of(commits[i].as_str());
        proof {
            assert(cs.take(i + 1).drop_last() =~= cs.take(i as int));
            assert(cs.take(i + 1).last() == commits@[i as int]@);
            assert(text::views(files@).len() == files@.len());
        }
        push_commit(&mut ops, &files, ts);
        i += 1;
    }
    assert(cs.take(cs.len() as int) =~= cs);
    ops
}

fn count_links(ops: &Vec<Op>) -> (res: usize)
    ensures
        res == snapshot::op_views(ops@).filter(is_link()).len(),
{
    let ghost all = snapshot::op_views(ops@);
    let mut n: usize = 0;
    let mut i: usize = 0;
    proof {
        reveal(Seq::filter);
        assert(all.take(0).filter(is_link()) =~= Seq::empty());
    }
    while i < ops.len()
        invariant
            n <= i <= ops@.len(),
            all == snapshot::op_views(ops@),
            n == all.take(i as int).filter(is_link()).len(),
        decreases ops@.len() - i,
    {
        proof {
            assert(all[i as int] == ops@[i as int]@);
            query::lemma_filter_step(all, i as int, is_link());
        }
        match &ops[i] {
            Op::ObserveEdge { .. } => {
                n += 1;
            },
            _ => {},
        }
        i += 1;
    }
    assert(all.take(all.len() as int) =~= all);
    n
}

/// Seeds an empty graph with the links of a git history; a graph that holds a
/// node stays as it is. Returns how many links were observed.
pub fn cold_start<S: OpSink>(sink: &mut S, history: &str, ts: Ts) -> (res: Result<usize, String>)
    requires
        old(sink).sink_wf(),
    ensures
        final(sink).sink_wf(),
        ({
            let ops = if old(sink).model().nodes.len() > 0 {
                Seq::empty()
            } else {
                history_ops(history@, ts)
            };
            &&& snapshot::fed(*old(sink), *final(sink), ops, snapshot::error_of(res))
            &&& res matches Ok(n) ==> n == ops.filter(is_link()).len()
            &&& S::steady() ==> {
                let (g, ok) = snapshot::run(old(sink).model(), ops);
                &&& final(sink).model() == g
                &&& final(sink).journal() == snapshot::extended(
                    old(sink).journal(),
                    snapshot::accepted(old(sink).model(), ops),
                )
                &&& match res {
                    Ok(_) => ok,
                    Err(e) => !ok && e@ == "graph is full: no ids are left"@,
                }
            }
        }),
{
    if sink.graph().node_count() > 0 {
        proof {
            sink.lemma_journal();
            snapshot::lemma_extended(sink.journal(), Seq::empty(), Seq::empty());
            reveal(Seq::filter);
        }
        return Ok(0);
    }
    let ops = ops_of_history(history, ts);
    let n: usize = count_links(&ops);
    match record_ops(sink, ops) {
        Ok(_) => Ok(n),
        Err(e) => Err(e),
    }
}

} // verus!
