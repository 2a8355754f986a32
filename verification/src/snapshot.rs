//! Snapshot ingestion for any domain.
//!
//! An adapter reduces each record of its domain to mutations and the names
//! that the record asserts to exist. This module applies the mutations and,
//! where the input is a complete snapshot, reconciles the graph with it:
//!
//! - a live node, placeholders left out, that the snapshot does not assert is
//!   retired;
//! - an open edge of a node that the snapshot observed is retired where the
//!   snapshot does not assert it again. Nodes that the snapshot did not
//!   observe keep their edges: a partial snapshot is no evidence of absence.

use crate::graph::{Op, TemporalGraph};
use crate::model::{GraphV, OpV, Ts};
use crate::query;
use crate::text;
use crate::text::same_text;
use crate::wal;
use vstd::hash_map::StringHashMap;
use vstd::hash_set::StringHashSet;
use vstd::prelude::*;

verus! {

/// Where mutations go.
pub trait OpSink: Sized {
    /// The graph behind the sink.
    spec fn model(&self) -> GraphV;

    /// The log, where there is one.
    spec fn journal(&self) -> Option<LogV>;

    spec fn sink_wf(&self) -> bool;

    /// Whether the sink, as it is, answers a mutation with this error.
    spec fn refuses(&self, op: OpV, error: Seq<char>) -> bool;

    /// Whether sinks of this kind refuse for want of ids only.
    spec fn steady() -> bool;

    /// The sequence number of the log is a number of 64 bits.
    proof fn lemma_journal(&self)
        ensures
            journal_wf(self.journal()),
    ;

    proof fn lemma_steady(&self, op: OpV, error: Seq<char>)
        requires
            Self::steady(),
            self.refuses(op, error),
        ensures
            !self.model().accepts(op),
            error == "graph is full: no ids are left"@,
    ;

    /// Takes one mutation: into the log, where there is one, and into the
    /// graph. Where it is refused both are as they were.
    fn record(&mut self, op: Op) -> (res: Result<(), String>)
        requires
            old(self).sink_wf(),
        ensures
            final(self).sink_wf(),
            res is Ok ==> old(self).model().accepts(op@),
            res matches Err(e) ==> final(self).refuses(op@, e@),
            final(self).model() == (if res is Ok {
                old(self).model().apply(op@)
            } else {
                old(self).model()
            }),
            final(self).journal() == (if res is Ok {
                extended(old(self).journal(), seq![op@])
            } else {
                old(self).journal()
            }),
    ;

    fn graph(&self) -> (res: &TemporalGraph)
        requires
            self.sink_wf(),
        ensures
            res.wf(),
            res@ == self.model(),
    ;
}

/// A log that mutations are written to.
pub struct LogV {
    /// Text that is still to be written out.
    pub pending: Seq<char>,
    pub wal_id: Option<Seq<char>>,
    /// Mutations replayed and journaled.
    pub lsn: nat,
    /// Half-written records dropped when the log was opened.
    pub skipped: nat,
}

/// A sequence number after `n` more mutations. It stays at the largest number
/// once it is there.
pub open spec fn advanced(lsn: nat, n: nat) -> nat {
    if lsn + n <= u64::MAX {
        lsn + n
    } else {
        u64::MAX as nat
    }
}

/// A log with the records of mutations after it.
pub open spec fn extended(journal: Option<LogV>, ops: Seq<OpV>) -> Option<LogV> {
    match journal {
        Some(l) => Some(
            LogV {
                pending: l.pending + wal::records_text(ops),
                lsn: advanced(l.lsn, ops.len()),
                ..l
            },
        ),
        None => None,
    }
}

pub open spec fn journal_wf(journal: Option<LogV>) -> bool {
    journal matches Some(l) ==> l.lsn <= u64::MAX
}

/// Records are written one after another.
pub proof fn lemma_extended(journal: Option<LogV>, a: Seq<OpV>, b: Seq<OpV>)
    requires
        journal_wf(journal),
    ensures
        extended(extended(journal, a), b) == extended(journal, a + b),
        extended(journal, Seq::empty()) == journal,
        journal_wf(extended(journal, a)),
    decreases b.len(),
{
    match journal {
        Some(j) => {
            let l = j.pending;
            assert(l + wal::records_text(Seq::empty()) =~= l);
            if b.len() == 0 {
                assert(a + b =~= a);
                assert(l + wal::records_text(a) + wal::records_text(b) =~= l + wal::records_text(a));
            } else {
                lemma_extended(journal, a, b.drop_last());
                assert((a + b).drop_last() =~= a + b.drop_last());
                assert((a + b).last() == b.last());
                let r = wal::record_text(b.last());
                assert(l + wal::records_text(a) + wal::records_text(b) =~= (l + wal::records_text(a)
                    + wal::records_text(b.drop_last())) + r + seq!['\n']);
                assert(l + wal::records_text(a + b) =~= (l + wal::records_text(a + b.drop_last()))
                    + r + seq!['\n']);
            }
        },
        None => {},
    }
}

/// The message for a mutation that no ids are left for.
pub fn full_message() -> (res: String)
    ensures
        res@ == "graph is full: no ids are left"@,
{
    "graph is full: no ids are left".to_owned()
}

impl OpSink for TemporalGraph {
    open spec fn model(&self) -> GraphV {
        self@
    }

    open spec fn journal(&self) -> Option<LogV> {
        None
    }

    open spec fn sink_wf(&self) -> bool {
        self.wf()
    }

    open spec fn refuses(&self, op: OpV, error: Seq<char>) -> bool {
        !self@.accepts(op) && error == "graph is full: no ids are left"@
    }

    open spec fn steady() -> bool {
        true
    }

    proof fn lemma_journal(&self) {
    }

    proof fn lemma_steady(&self, op: OpV, error: Seq<char>) {
    }

    fn record(&mut self, op: Op) -> (res: Result<(), String>)
        ensures
            res is Ok == old(self)@.accepts(op@),
    {
        if self.can_apply(&op) {
            self.apply(&op);
            Ok(())
        } else {
            Err(full_message())
        }
    }

    fn graph(&self) -> (res: &TemporalGraph) {
        self
    }
}

/// The mutations of one record, and the names that it asserts.
pub type Batch = (Vec<Op>, Vec<String>);

pub open spec fn op_views(ops: Seq<Op>) -> Seq<OpV> {
    ops.map_values(|o: Op| o@)
}

/// The graph after the mutations, up to the first that is refused, and
/// whether none was.
pub open spec fn run(g: GraphV, ops: Seq<OpV>) -> (GraphV, bool)
    decreases ops.len(),
{
    if ops.len() == 0 {
        (g, true)
    } else {
        let (h, ok) = run(g, ops.drop_last());
        if ok && h.accepts(ops.last()) {
            (h.apply(ops.last()), true)
        } else {
            (h, false)
        }
    }
}

/// The mutations up to the first that is refused.
pub open spec fn accepted(g: GraphV, ops: Seq<OpV>) -> Seq<OpV>
    decreases ops.len(),
{
    if ops.len() == 0 {
        Seq::empty()
    } else {
        let before = accepted(g, ops.drop_last());
        let (h, ok) = run(g, ops.drop_last());
        if ok && h.accepts(ops.last()) {
            before.push(ops.last())
        } else {
            before
        }
    }
}

/// Running mutations applies those that are accepted, all of them where none
/// is refused.
pub proof fn running_applies_what_is_accepted(g: GraphV, ops: Seq<OpV>)
    ensures
        run(g, ops).0 == g.apply_all(accepted(g, ops)),
        run(g, ops).1 ==> accepted(g, ops) == ops,
    decreases ops.len(),
{
    if ops.len() > 0 {
        running_applies_what_is_accepted(g, ops.drop_last());
        let before = accepted(g, ops.drop_last());
        assert(before.push(ops.last()).drop_last() =~= before);
        if run(g, ops).1 {
            assert(ops.drop_last().push(ops.last()) =~= ops);
        }
    }
}

proof fn lemma_accepted_concat(g: GraphV, a: Seq<OpV>, b: Seq<OpV>)
    ensures
        accepted(g, a + b) == (if run(g, a).1 {
            accepted(g, a) + accepted(run(g, a).0, b)
        } else {
            accepted(g, a)
        }),
    decreases b.len(),
{
    if b.len() == 0 {
        assert(a + b =~= a);
        assert(accepted(g, a) + accepted(run(g, a).0, b) =~= accepted(g, a));
    } else {
        assert((a + b).drop_last() =~= a + b.drop_last());
        assert((a + b).last() == b.last());
        lemma_accepted_concat(g, a, b.drop_last());
        lemma_run_concat(g, a, b.drop_last());
        let x = accepted(g, a);
        let y = accepted(run(g, a).0, b.drop_last());
        assert((x + y).push(b.last()) =~= x + y.push(b.last()));
    }
}

/// The mutations of all batches, in order.
pub open spec fn batch_ops(batches: Seq<Batch>) -> Seq<OpV>
    decreases batches.len(),
{
    if batches.len() == 0 {
        Seq::empty()
    } else {
        batch_ops(batches.drop_last()) + op_views(batches.last().0@)
    }
}

/// The names that the batches assert.
pub open spec fn batch_names(batches: Seq<Batch>) -> Set<Seq<char>>
    decreases batches.len(),
{
    if batches.len() == 0 {
        Set::empty()
    } else {
        batch_names(batches.drop_last()).union(query::string_set(batches.last().1@))
    }
}

/// The nodes that the mutations observe, each once, in the order of first
/// observation.
pub open spec fn observed(ops: Seq<OpV>) -> Seq<Seq<char>>
    decreases ops.len(),
{
    if ops.len() == 0 {
        Seq::empty()
    } else {
        let before = observed(ops.drop_last());
        match ops.last() {
            OpV::ObserveNode { name, .. } => if before.contains(name) {
                before
            } else {
                before.push(name)
            },
            _ => before,
        }
    }
}

/// Whether the mutations assert an edge.
pub open spec fn asserts_edge(ops: Seq<OpV>, src: Seq<char>, dst: Seq<char>, kind: Seq<char>) -> bool
    decreases ops.len(),
{
    ops.len() > 0 && (asserts_edge(ops.drop_last(), src, dst, kind) || match ops.last() {
        OpV::ObserveEdge { src: s, dst: d, kind: k, .. } => s == src && d == dst && k == kind,
        _ => false,
    })
}

pub open spec fn unasserted(ops: Seq<OpV>, src: Seq<char>) -> spec_fn((Seq<char>, Seq<char>)) -> bool {
    |p: (Seq<char>, Seq<char>)| !asserts_edge(ops, src, p.0, p.1)
}

pub open spec fn retirement(src: Seq<char>, ts: Ts) -> spec_fn((Seq<char>, Seq<char>)) -> OpV {
    |p: (Seq<char>, Seq<char>)| OpV::RetireEdge { src, dst: p.0, kind: p.1, ts }
}

/// The retirements of the open edges of `src` that `ops` do not assert.
pub open spec fn stale_edges(g: GraphV, ops: Seq<OpV>, src: Seq<char>, ts: Ts) -> Seq<OpV> {
    query::open_targets(g, src).filter(unasserted(ops, src)).map_values(retirement(src, ts))
}

/// The retirements of the stale edges of several nodes.
pub open spec fn all_stale_edges(g: GraphV, ops: Seq<OpV>, srcs: Seq<Seq<char>>, ts: Ts) -> Seq<OpV>
    decreases srcs.len(),
{
    if srcs.len() == 0 {
        Seq::empty()
    } else {
        all_stale_edges(g, ops, srcs.drop_last(), ts) + stale_edges(g, ops, srcs.last(), ts)
    }
}

/// Reconciliation with a snapshot: the graph after it, and the names of the
/// nodes that were retired.
pub open spec fn reconciled(g: GraphV, ops: Seq<OpV>, names: Set<Seq<char>>, ts: Ts) -> (
    GraphV,
    Seq<Seq<char>>,
) {
    let g2 = g.apply_all(all_stale_edges(g, ops, observed(ops), ts));
    let stale = query::named(g2, query::stale(names, ts));
    (query::retire_all(g2, stale, ts), stale)
}

/// Ingestion of batches, given their mutations and names: the graph after
/// it, and the names of the nodes that reconciliation retired; `None` where a
/// mutation was refused.
pub open spec fn ingested(
    g: GraphV,
    ops: Seq<OpV>,
    names: Set<Seq<char>>,
    ts: Ts,
    reconcile: bool,
) -> (GraphV, Option<Seq<Seq<char>>>) {
    let (g1, ok) = run(g, ops);
    if !ok {
        (g1, None)
    } else if !reconcile {
        (g1, Some(Seq::empty()))
    } else {
        let (g2, stale) = reconciled(g1, ops, names, ts);
        (g2, Some(stale))
    }
}

pub open spec fn node_retirement(ts: Ts) -> spec_fn(Seq<char>) -> OpV {
    |name: Seq<char>| OpV::RetireNode { name, ts }
}

/// The mutations that an ingestion makes.
pub open spec fn executed(
    g: GraphV,
    ops: Seq<OpV>,
    names: Set<Seq<char>>,
    ts: Ts,
    reconcile: bool,
) -> Seq<OpV> {
    let (g1, ok) = run(g, ops);
    if ok && reconcile {
        accepted(g, ops) + all_stale_edges(g1, ops, observed(ops), ts) + reconciled(
            g1,
            ops,
            names,
            ts,
        ).1.map_values(node_retirement(ts))
    } else {
        accepted(g, ops)
    }
}

/// Edges by source.
struct EdgeSet {
    index: StringHashMap<usize>,
    lists: Vec<Vec<(String, String)>>,
}

impl EdgeSet {
    spec fn has(&self, src: Seq<char>, dst: Seq<char>, kind: Seq<char>) -> bool {
        self.index@.contains_key(src) && query::pair_views(
            self.lists@[self.index@[src] as int]@,
        ).contains((dst, kind))
    }

    spec fn wf(&self) -> bool {
        &&& forall|s: Seq<char>| #[trigger]
            self.index@.contains_key(s) ==> self.index@[s] < self.lists@.len()
        &&& forall|s: Seq<char>, r: Seq<char>| #[trigger]
            self.index@.contains_key(s) && #[trigger] self.index@.contains_key(r) && self.index@[s]
                == self.index@[r] ==> s == r
    }

    fn new() -> (res: Self)
        ensures
            res.wf(),
            forall|s: Seq<char>, d: Seq<char>, k: Seq<char>| !#[trigger] res.has(s, d, k),
    {
        EdgeSet { index: StringHashMap::new(), lists: Vec::new() }
    }

    fn insert(&mut self, src: &str, dst: &str, kind: &str)
        requires
            old(self).wf(),
        ensures
            final(self).wf(),
            forall|s: Seq<char>, d: Seq<char>, k: Seq<char>| #[trigger]
                final(self).has(s, d, k) == (old(self).has(s, d, k) || (s == src@ && d == dst@ && k
                    == kind@)),
    {
        let pair = (dst.to_owned(), kind.to_owned());
        let found: Option<usize> = match self.index.get(src) {
            Some(i) => Some(*i),
            None => None,
        };
        if let Some(i) = found {
            let ghost l = self.lists@[i as int]@;
            self.lists[i].push(pair);
            proof {
                lemma_pair_push(l, pair);
                assert forall|s: Seq<char>, d: Seq<char>, k: Seq<char>| #[trigger]
                    self.has(s, d, k) == (old(self).has(s, d, k) || (s == src@ && d == dst@ && k
                        == kind@)) by {
                    if self.index@.contains_key(s) && s != src@ {
                        assert(self.index@[s] != i);
                    }
                }
            }
        } else {
            let i: usize = self.lists.len();
            let mut l: Vec<(String, String)> = Vec::new();
            let ghost empty = l@;
            l.push(pair);
            self.lists.push(l);
            self.index.insert(src.to_owned(), i);
            proof {
                lemma_pair_push(empty, pair);
                assert(query::pair_views(empty) =~= Seq::empty());
                assert forall|s: Seq<char>, d: Seq<char>, k: Seq<char>| #[trigger]
                    self.has(s, d, k) == (old(self).has(s, d, k) || (s == src@ && d == dst@ && k
                        == kind@)) by {}
            }
        }
    }

    fn contains(&self, src: &str, dst: &str, kind: &str) -> (res: bool)
        requires
            self.wf(),
        ensures
            res == self.has(src@, dst@, kind@),
    {
        match self.index.get(src) {
            Some(i) => {
                let l = &self.lists[*i];
                let ghost v = query::pair_views(l@);
                let mut j: usize = 0;
                while j < l.len()
                    invariant
                        j <= l@.len(),
                        v == query::pair_views(l@),
                        self.has(src@, dst@, kind@) == v.contains((dst@, kind@)),
                        forall|m: int| 0 <= m < j ==> v[m] != (dst@, kind@),
                    decreases l@.len() - j,
                {
                    assert(v[j as int] == (l@[j as int].0@, l@[j as int].1@));
                    if same_text(l[j].0.as_str(), dst) && same_text(l[j].1.as_str(), kind) {
                        return true;
                    }
                    j += 1;
                }
                false
            },
            None => false,
        }
    }
}

proof fn lemma_pair_push(l: Seq<(String, String)>, p: (String, String))
    ensures
        query::pair_views(l.push(p)) == query::pair_views(l).push((p.0@, p.1@)),
        forall|x: (Seq<char>, Seq<char>)| #[trigger]
            query::pair_views(l.push(p)).contains(x) == (query::pair_views(l).contains(x) || x == (
                p.0@,
                p.1@,
            )),
{
    let a = query::pair_views(l);
    let b = query::pair_views(l.push(p));
    assert(b =~= a.push((p.0@, p.1@)));
    assert forall|x: (Seq<char>, Seq<char>)| #[trigger] b.contains(x) == (a.contains(x) || x == (
        p.0@,
        p.1@,
    )) by {
        if a.contains(x) {
            let k = a.index_of(x);
            assert(b[k] == x);
        }
        assert(b[a.len() as int] == (p.0@, p.1@));
    }
}

/// What the mutations so far observed and asserted.
struct Ledger {
    nodes: Vec<String>,
    node_set: StringHashSet,
    edges: EdgeSet,
}

impl Ledger {
    spec fn tracks(&self, ops: Seq<OpV>) -> bool {
        &&& text::views(self.nodes@) == observed(ops)
        &&& self.node_set@ == observed(ops).to_set()
        &&& self.edges.wf()
        &&& forall|s: Seq<char>, d: Seq<char>, k: Seq<char>| #[trigger]
            self.edges.has(s, d, k) == asserts_edge(ops, s, d, k)
    }

    fn new() -> (res: Self)
        ensures
            res.tracks(Seq::empty()),
    {
        let res = Ledger { nodes: Vec::new(), node_set: StringHashSet::new(), edges: EdgeSet::new() };
        proof {
            let none = Seq::<OpV>::empty();
            assert(text::views(res.nodes@) =~= observed(none));
            assert(observed(none).to_set() =~= Set::empty());
        }
        res
    }

    fn note(&mut self, op: &Op, Ghost(ops): Ghost<Seq<OpV>>)
        requires
            old(self).tracks(ops),
        ensures
            final(self).tracks(ops.push(op@)),
    {
        let ghost after = ops.push(op@);
        assert(after.drop_last() =~= ops);
        assert(after.last() == op@);
        match op {
            Op::ObserveNode { name, .. } => {
                if self.node_set.insert(name.clone()) {
                    let ghost v = self.nodes@;
                    self.nodes.push(name.clone());
                    proof {
                        query::lemma_views_push(v, *name);
                        let a = observed(ops);
                        let b = observed(after);
                        assert(!a.contains(name@));
                        assert(b == a.push(name@));
                        assert(b.to_set() =~= a.to_set().insert(name@)) by {
                            assert forall|x: Seq<char>|
                                b.contains(x) == (a.contains(x) || x == name@) by {
                                if a.contains(x) {
                                    let k = a.index_of(x);
                                    assert(b[k] == x);
                                }
                                assert(b[a.len() as int] == name@);
                            }
                        }
                    }
                } else {
                    assert(self.node_set@ =~= old(self).node_set@);
                }
            },
            Op::ObserveEdge { src, dst, kind, .. } => {
                self.edges.insert(src.as_str(), dst.as_str(), kind.as_str());
            },
            _ => {},
        }
    }

    fn note_all(&mut self, ops: &Vec<Op>, Ghost(done): Ghost<Seq<OpV>>)
        requires
            old(self).tracks(done),
        ensures
            final(self).tracks(done + op_views(ops@)),
    {
        let ghost all = op_views(ops@);
        let mut i: usize = 0;
        assert(done + all.take(0) =~= done);
        while i < ops.len()
            invariant
                i <= ops@.len(),
                all == op_views(ops@),
                self.tracks(done + all.take(i as int)),
            decreases ops@.len() - i,
        {
            proof {
                assert(all[i as int] == ops@[i as int]@);
                assert(done + all.take(i + 1) =~= (done + all.take(i as int)).push(all[i as int]));
            }
            self.note(&ops[i], Ghost(done + all.take(i as int)));
            i += 1;
        }
        assert(all.take(all.len() as int) =~= all);
    }

    /// The retirements of the stale edges of the nodes observed.
    fn stale_edge_ops(&self, g: &TemporalGraph, ts: Ts, Ghost(ops): Ghost<Seq<OpV>>) -> (res: Vec<
        Op,
    >)
        requires
            self.tracks(ops),
            g.wf(),
        ensures
            op_views(res@) == all_stale_edges(g@, ops, observed(ops), ts),
    {
        let mut out: Vec<Op> = Vec::new();
        let ghost srcs = observed(ops);
        let mut i: usize = 0;
        assert(op_views(out@) =~= all_stale_edges(g@, ops, srcs.take(0), ts));
        while i < self.nodes.len()
            invariant
                i <= self.nodes@.len(),
                self.tracks(ops),
                g.wf(),
                srcs == observed(ops),
                op_views(out@) == all_stale_edges(g@, ops, srcs.take(i as int), ts),
            decreases self.nodes@.len() - i,
        {
            let src = self.nodes[i].as_str();
            let targets = g.open_out_edges_named(src);
            let ghost base = op_views(out@);
            let ghost ts_view = query::pair_views(targets@);
            let ghost p = unasserted(ops, src@);
            let ghost f = retirement(src@, ts);
            let mut j: usize = 0;
            proof {
                assert(srcs[i as int] == self.nodes@[i as int]@);
                assert(srcs.take(i + 1).drop_last() =~= srcs.take(i as int));
                reveal(Seq::filter);
                assert(base =~= base + ts_view.take(0).filter(p).map_values(f));
            }
            while j < targets.len()
                invariant
                    j <= targets@.len(),
                    self.tracks(ops),
                    ts_view == query::pair_views(targets@),
                    p == unasserted(ops, src@),
                    f == retirement(src@, ts),
                    op_views(out@) == base + ts_view.take(j as int).filter(p).map_values(f),
                decreases targets@.len() - j,
            {
                let (dst, kind) = &targets[j];
                proof {
                    assert(ts_view[j as int] == (dst@, kind@));
                    query::lemma_filter_step(ts_view, j as int, p);
                    query::lemma_map_push(
                        ts_view.take(j as int).filter(p),
                        (dst@, kind@),
                        f,
                    );
                }
                if !self.edges.contains(src, dst.as_str(), kind.as_str()) {
                    let op = Op::RetireEdge {
                        src: src.to_owned(),
                        dst: dst.clone(),
                        kind: kind.clone(),
                        ts,
                    };
                    let ghost o = out@;
                    out.push(op);
                    assert(op_views(out@) =~= op_views(o).push(op@));
                    assert(op_views(out@) =~= base + ts_view.take(j + 1).filter(p).map_values(f));
                }
                j += 1;
            }
            assert(ts_view.take(ts_view.len() as int) =~= ts_view);
            i += 1;
        }
        assert(srcs.take(srcs.len() as int) =~= srcs);
        out
    }
}

proof fn lemma_run_concat(g: GraphV, a: Seq<OpV>, b: Seq<OpV>)
    ensures
        run(g, a + b) == (if run(g, a).1 {
            run(run(g, a).0, b)
        } else {
            (run(g, a).0, false)
        }),
    decreases b.len(),
{
    if b.len() == 0 {
        assert(a + b =~= a);
    } else {
        assert((a + b).drop_last() =~= a + b.drop_last());
        lemma_run_concat(g, a, b.drop_last());
    }
}

/// The error of a result, if it is one.
pub open spec fn error_of<T>(res: Result<T, String>) -> Option<Seq<char>> {
    match res {
        Ok(_) => None,
        Err(e) => Some(e@),
    }
}

/// The sink has taken the first `k` of the mutations, and nothing else.
pub open spec fn took<S: OpSink>(before: S, after: S, ops: Seq<OpV>, k: int) -> bool {
    &&& run(before.model(), ops.take(k)) == (after.model(), true)
    &&& after.journal() == extended(before.journal(), ops.take(k))
}

/// The sink has taken the mutations: all of them, or those before one that it
/// answered with this error.
pub open spec fn fed<S: OpSink>(before: S, after: S, ops: Seq<OpV>, error: Option<Seq<char>>) -> bool {
    match error {
        None => took(before, after, ops, ops.len() as int),
        Some(e) => exists|k: int|
            0 <= k < ops.len() && #[trigger] took(before, after, ops, k) && after.refuses(
                ops[k],
                e,
            ),
    }
}

/// A sink that refuses for want of ids only takes what is accepted, and refuses
/// where something is not.
pub proof fn steady_sink_takes_what_is_accepted<S: OpSink>(
    before: S,
    after: S,
    ops: Seq<OpV>,
    error: Option<Seq<char>>,
)
    requires
        S::steady(),
        fed(before, after, ops, error),
    ensures
        after.model() == run(before.model(), ops).0,
        after.journal() == extended(before.journal(), accepted(before.model(), ops)),
        error is None == run(before.model(), ops).1,
        error matches Some(e) ==> e == "graph is full: no ids are left"@,
{
    let g = before.model();
    match error {
        None => {
            assert(ops.take(ops.len() as int) =~= ops);
            running_applies_what_is_accepted(g, ops);
        },
        Some(e) => {
            let k = choose|k: int|
                0 <= k < ops.len() && #[trigger] took(before, after, ops, k) && after.refuses(
                    ops[k],
                    e,
                );
            after.lemma_steady(ops[k], e);
            let a = ops.take(k + 1);
            assert(a.drop_last() =~= ops.take(k));
            assert(a.last() == ops[k]);
            assert(ops =~= a + ops.skip(k + 1));
            running_applies_what_is_accepted(g, ops.take(k));
            lemma_run_concat(g, a, ops.skip(k + 1));
            lemma_accepted_concat(g, a, ops.skip(k + 1));
        },
    }
}

/// Mutations that are taken one after another.
proof fn lemma_fed_more<S: OpSink>(
    a: S,
    b: S,
    c: S,
    xs: Seq<OpV>,
    ys: Seq<OpV>,
    error: Option<Seq<char>>,
)
    requires
        fed(a, b, xs, None),
        fed(b, c, ys, error),
    ensures
        fed(a, c, xs + ys, error),
{
    let n = xs.len() as int;
    let all = xs + ys;
    assert(xs.take(n) =~= xs);
    a.lemma_journal();
    match error {
        None => {
            assert(ys.take(ys.len() as int) =~= ys);
            assert(all.take(all.len() as int) =~= all);
            lemma_run_concat(a.model(), xs, ys);
            lemma_extended(a.journal(), xs, ys);
        },
        Some(e) => {
            let k = choose|k: int|
                0 <= k < ys.len() && #[trigger] took(b, c, ys, k) && c.refuses(ys[k], e);
            assert(all.take(n + k) =~= xs + ys.take(k));
            lemma_run_concat(a.model(), xs, ys.take(k));
            lemma_extended(a.journal(), xs, ys.take(k));
            assert(took(a, c, all, n + k));
            assert(all[n + k] == ys[k]);
        },
    }
}

/// What would have come after a refusal makes no difference.
proof fn lemma_fed_short<S: OpSink>(a: S, b: S, xs: Seq<OpV>, ys: Seq<OpV>, e: Seq<char>)
    requires
        fed(a, b, xs, Some(e)),
    ensures
        fed(a, b, xs + ys, Some(e)),
{
    let k = choose|k: int| 0 <= k < xs.len() && #[trigger] took(a, b, xs, k) && b.refuses(xs[k], e);
    assert((xs + ys).take(k) =~= xs.take(k));
    assert(took(a, b, xs + ys, k));
    assert((xs + ys)[k] == xs[k]);
}

/// Records the mutations, up to the first that is refused.
pub fn record_ops<S: OpSink>(sink: &mut S, ops: Vec<Op>) -> (res: Result<(), String>)
    requires
        old(sink).sink_wf(),
    ensures
        final(sink).sink_wf(),
        fed(*old(sink), *final(sink), op_views(ops@), error_of(res)),
        S::steady() ==> {
            let (g, ok) = run(old(sink).model(), op_views(ops@));
            &&& final(sink).model() == g
            &&& final(sink).journal() == extended(
                old(sink).journal(),
                accepted(old(sink).model(), op_views(ops@)),
            )
            &&& match res {
                Ok(_) => ok,
                Err(e) => !ok && e@ == "graph is full: no ids are left"@,
            }
        },
{
    let ghost all = op_views(ops@);
    let ghost start = *sink;
    proof {
        assert(all.take(0) =~= Seq::empty());
        sink.lemma_journal();
        lemma_extended(sink.journal(), Seq::empty(), Seq::empty());
    }
    for op in it: ops
        invariant
            it.seq() == ops@,
            all == op_views(ops@),
            start == *old(sink),
            sink.sink_wf(),
            took(start, *sink, all, it.index()),
    {
        let ghost k = it.index();
        proof {
            start.lemma_journal();
            lemma_extended(start.journal(), all.take(k), seq![op@]);
            assert(all[k] == op@);
            assert(all.take(k) + seq![op@] =~= all.take(k + 1));
            assert(all.take(k + 1).drop_last() =~= all.take(k));
        }
        match sink.record(op) {
            Ok(_) => {},
            Err(e) => {
                proof {
                    assert(took(start, *sink, all, k));
                    assert(fed(start, *sink, all, Some(e@)));
                    if S::steady() {
                        steady_sink_takes_what_is_accepted(start, *sink, all, Some(e@));
                    }
                }
                return Err(e);
            },
        }
    }
    proof {
        if S::steady() {
            steady_sink_takes_what_is_accepted(start, *sink, all, None);
        }
    }
    Ok(())
}

/// Retirements are never refused for want of ids.
proof fn lemma_run_retirements(g: GraphV, ops: Seq<OpV>)
    requires
        forall|i: int|
            0 <= i < ops.len() ==> (#[trigger] ops[i]) is RetireNode || ops[i] is RetireEdge,
    ensures
        run(g, ops) == (g.apply_all(ops), true),
    decreases ops.len(),
{
    if ops.len() > 0 {
        let front = ops.drop_last();
        assert forall|i: int| 0 <= i < front.len() implies (#[trigger] front[i]) is RetireNode
            || front[i] is RetireEdge by {
            assert(ops[i] is RetireNode || ops[i] is RetireEdge);
        }
        lemma_run_retirements(g, front);
        assert(ops[ops.len() - 1] == ops.last());
    }
}

proof fn lemma_retire_named(g: GraphV, names: Seq<Seq<char>>, ts: Ts)
    ensures
        run(g, names.map_values(node_retirement(ts))) == (query::retire_all(g, names, ts), true),
    decreases names.len(),
{
    let f = node_retirement(ts);
    if names.len() > 0 {
        lemma_retire_named(g, names.drop_last(), ts);
        assert(names.map_values(f).drop_last() =~= names.drop_last().map_values(f));
    }
}

/// The retirements of nodes.
fn retirements(names: &Vec<String>, ts: Ts) -> (res: Vec<Op>)
    ensures
        op_views(res@) == text::views(names@).map_values(node_retirement(ts)),
{
    let ghost all = text::views(names@);
    let ghost f = node_retirement(ts);
    let mut out: Vec<Op> = Vec::new();
    let mut i: usize = 0;
    assert(op_views(out@) =~= all.take(0).map_values(f));
    while i < names.len()
        invariant
            i <= names@.len(),
            all == text::views(names@),
            f == node_retirement(ts),
            op_views(out@) == all.take(i as int).map_values(f),
        decreases names@.len() - i,
    {
        let ghost o = out@;
        let op = Op::RetireNode { name: names[i].clone(), ts };
        out.push(op);
        proof {
            assert(all[i as int] == names@[i as int]@);
            assert(op@ == f(all[i as int]));
            assert(op_views(out@) =~= op_views(o).push(op@));
            assert(op_views(out@) =~= all.take(i + 1).map_values(f));
        }
        i += 1;
    }
    assert(all.take(all.len() as int) =~= all);
    out
}

/// What an ingestion hands to a sink, one mutation after another, as long as
/// none is refused.
pub open spec fn planned(
    g: GraphV,
    ops: Seq<OpV>,
    names: Set<Seq<char>>,
    ts: Ts,
    reconcile: bool,
) -> Seq<OpV> {
    if run(g, ops).1 {
        executed(g, ops, names, ts, reconcile)
    } else {
        ops
    }
}

/// What an ingestion does to a sink and returns. The first error of the sink is
/// returned, and what the sink took before it stands.
pub open spec fn ingestion<S: OpSink>(
    before: S,
    after: S,
    ops: Seq<OpV>,
    names: Set<Seq<char>>,
    ts: Ts,
    reconcile: bool,
    res: Result<Vec<String>, String>,
) -> bool {
    &&& fed(before, after, planned(before.model(), ops, names, ts, reconcile), error_of(res))
    &&& res matches Ok(stale) ==> ingested(before.model(), ops, names, ts, reconcile) == (
        after.model(),
        Some(text::views(stale@)),
    )
}

/// With a sink that refuses for want of ids only, an ingestion does what the
/// graph alone decides.
pub open spec fn exact_ingestion<S: OpSink>(
    before: S,
    after: S,
    ops: Seq<OpV>,
    names: Set<Seq<char>>,
    ts: Ts,
    reconcile: bool,
    res: Result<Vec<String>, String>,
) -> bool {
    let (g, outcome) = ingested(before.model(), ops, names, ts, reconcile);
    &&& after.model() == g
    &&& after.journal() == extended(
        before.journal(),
        executed(before.model(), ops, names, ts, reconcile),
    )
    &&& match res {
        Ok(stale) => outcome == Some(text::views(stale@)),
        Err(e) => outcome is None && e@ == "graph is full: no ids are left"@,
    }
}

proof fn lemma_steady_ingestion<S: OpSink>(
    before: S,
    after: S,
    ops: Seq<OpV>,
    names: Set<Seq<char>>,
    ts: Ts,
    reconcile: bool,
    res: Result<Vec<String>, String>,
)
    requires
        S::steady(),
        ingestion(before, after, ops, names, ts, reconcile, res),
    ensures
        exact_ingestion(before, after, ops, names, ts, reconcile, res),
{
    let g = before.model();
    let plan = planned(g, ops, names, ts, reconcile);
    steady_sink_takes_what_is_accepted(before, after, plan, error_of(res));
    running_applies_what_is_accepted(g, ops);
    running_applies_what_is_accepted(g, plan);
    if run(g, ops).1 && reconcile {
        let g1 = run(g, ops).0;
        let edges = all_stale_edges(g1, ops, observed(ops), ts);
        let g2 = g1.apply_all(edges);
        let stale = query::named(g2, query::stale(names, ts));
        lemma_stale_edges_retire(g1, ops, observed(ops), ts);
        lemma_run_retirements(g1, edges);
        lemma_retire_named(g2, stale, ts);
        lemma_run_concat(g, ops, edges);
        lemma_run_concat(g, ops + edges, stale.map_values(node_retirement(ts)));
    }
}

/// Ingests batches observed at `ts` through `sink`. With `reconcile` they are
/// taken for a complete snapshot. Returns the names of the nodes that
/// reconciliation retired.
pub fn ingest_snapshot_ops<S: OpSink>(
    sink: &mut S,
    batches: Vec<Batch>,
    ts: Ts,
    reconcile: bool,
) -> (res: Result<Vec<String>, String>)
    requires
        old(sink).sink_wf(),
    ensures
        final(sink).sink_wf(),
        ingestion(
            *old(sink),
            *final(sink),
            batch_ops(batches@),
            batch_names(batches@),
            ts,
            reconcile,
            res,
        ),
        S::steady() ==> exact_ingestion(
            *old(sink),
            *final(sink),
            batch_ops(batches@),
            batch_names(batches@),
            ts,
            reconcile,
            res,
        ),
{
    let ghost start = *sink;
    let ghost names_v = batch_names(batches@);
    let ghost all_ops = batch_ops(batches@);
    let res = ingest_batches(sink, batches, ts, reconcile);
    proof {
        if S::steady() {
            lemma_steady_ingestion(start, *sink, all_ops, names_v, ts, reconcile, res);
        }
    }
    res
}

fn ingest_batches<S: OpSink>(
    sink: &mut S,
    batches: Vec<Batch>,
    ts: Ts,
    reconcile: bool,
) -> (res: Result<Vec<String>, String>)
    requires
        old(sink).sink_wf(),
    ensures
        final(sink).sink_wf(),
        ingestion(
            *old(sink),
            *final(sink),
            batch_ops(batches@),
            batch_names(batches@),
            ts,
            reconcile,
            res,
        ),
{
    let ghost start = *sink;
    let ghost g = sink.model();
    let ghost all_ops = batch_ops(batches@);
    let ghost all_names = batch_names(batches@);
    let ghost plan = planned(g, all_ops, all_names, ts, reconcile);
    let mut ledger = Ledger::new();
    let mut seen: Vec<String> = Vec::new();
    proof {
        assert(batches@.take(0) =~= Seq::empty());
        assert(text::views(seen@).to_set() =~= Set::empty());
        let none = Seq::<OpV>::empty();
        assert(none.take(0) =~= none);
        sink.lemma_journal();
        lemma_extended(sink.journal(), Seq::empty(), Seq::empty());
        lemma_plan_starts(g, all_ops, all_names, ts, reconcile);
    }
    for batch in it: batches
        invariant
            it.seq() == batches@,
            start == *old(sink),
            all_ops == batch_ops(batches@),
            all_ops.is_prefix_of(plan),
            plan == planned(start.model(), all_ops, batch_names(batches@), ts, reconcile),
            sink.sink_wf(),
            fed(start, *sink, batch_ops(batches@.take(it.index())), None),
            ledger.tracks(batch_ops(batches@.take(it.index()))),
            query::string_set(seen@) == batch_names(batches@.take(it.index())),
    {
        let ghost k = it.index();
        let ghost done = batch_ops(batches@.take(k));
        let ghost ops_v = op_views(batch.0@);
        let ghost before = *sink;
        proof {
            assert(batches@.take(k + 1).drop_last() =~= batches@.take(k));
            assert(batches@.take(k + 1).last() == batch);
        }
        let (ops, names) = batch;
        ledger.note_all(&ops, Ghost(done));
        let answer = record_ops(sink, ops);
        proof {
            lemma_fed_more(start, before, *sink, done, ops_v, error_of(answer));
        }
        match answer {
            Ok(_) => {},
            Err(e) => {
                proof {
                    let so_far = batch_ops(batches@.take(k + 1));
                    lemma_batch_ops_split(batches@, k + 1);
                    assert(so_far.is_prefix_of(all_ops));
                    assert(all_ops =~= plan.take(all_ops.len() as int));
                    assert(plan =~= so_far + plan.skip(so_far.len() as int));
                    lemma_fed_short(start, *sink, so_far, plan.skip(so_far.len() as int), e@);
                }
                return Err(e);
            },
        }
        let ghost before = seen@;
        let mut more = names;
        seen.append(&mut more);
        proof {
            assert(text::views(seen@) =~= text::views(before) + text::views(names@));
            vstd::seq_lib::seq_to_set_distributes_over_add(
                text::views(before),
                text::views(names@),
            );
        }
    }
    let ghost mid = *sink;
    proof {
        assert(batches@.take(batches@.len() as int) =~= batches@);
        assert(all_ops.take(all_ops.len() as int) =~= all_ops);
        running_applies_what_is_accepted(g, all_ops);
        assert(run(g, all_ops) == (mid.model(), true));
    }
    if !reconcile {
        let none: Vec<String> = Vec::new();
        assert(text::views(none@) =~= Seq::empty());
        return Ok(none);
    }
    let edge_ops = ledger.stale_edge_ops(sink.graph(), ts, Ghost(all_ops));
    let ghost edges = op_views(edge_ops@);
    let ghost g2 = mid.model().apply_all(edges);
    let ghost stale_v = query::named(g2, query::stale(all_names, ts));
    let ghost last = stale_v.map_values(node_retirement(ts));
    proof {
        lemma_stale_edges_retire(mid.model(), all_ops, observed(all_ops), ts);
        lemma_run_retirements(mid.model(), edges);
        lemma_retire_named(g2, stale_v, ts);
        assert(plan == all_ops + edges + last);
    }
    let answer = record_ops(sink, edge_ops);
    proof {
        lemma_fed_more(start, mid, *sink, all_ops, edges, error_of(answer));
    }
    match answer {
        Ok(_) => {},
        Err(e) => {
            proof {
                lemma_fed_short(start, *sink, all_ops + edges, last, e@);
            }
            return Err(e);
        },
    }
    let ghost mid = *sink;
    assert(edges.take(edges.len() as int) =~= edges);
    let stale = sink.graph().stale_nodes(&seen, ts);
    let node_ops = retirements(&stale, ts);
    let answer = record_ops(sink, node_ops);
    proof {
        lemma_fed_more(start, mid, *sink, all_ops + edges, last, error_of(answer));
        assert(last.take(last.len() as int) =~= last);
    }
    match answer {
        Ok(_) => Ok(stale),
        Err(e) => Err(e),
    }
}

/// The mutations of the batches come first.
proof fn lemma_plan_starts(
    g: GraphV,
    ops: Seq<OpV>,
    names: Set<Seq<char>>,
    ts: Ts,
    reconcile: bool,
)
    ensures
        ops.is_prefix_of(planned(g, ops, names, ts, reconcile)),
{
    running_applies_what_is_accepted(g, ops);
}

proof fn lemma_batch_ops_split(batches: Seq<Batch>, k: int)
    requires
        0 <= k <= batches.len(),
    ensures
        batch_ops(batches) == batch_ops(batches.take(k)) + batch_ops(batches.skip(k)),
    decreases batches.len() - k,
{
    if k == batches.len() {
        assert(batches.take(k) =~= batches);
        assert(batch_ops(batches.skip(k)) =~= Seq::empty());
        assert(batch_ops(batches) =~= batch_ops(batches) + Seq::<OpV>::empty());
    } else {
        let front = batches.drop_last();
        lemma_batch_ops_split(front, k);
        assert(front.take(k) =~= batches.take(k));
        assert(front.skip(k) =~= batches.skip(k).drop_last());
        assert(batches.skip(k).last() == batches.last());
        assert(batch_ops(batches) =~= batch_ops(batches.take(k)) + batch_ops(batches.skip(k)));
    }
}

proof fn lemma_stale_edges_retire(g: GraphV, ops: Seq<OpV>, srcs: Seq<Seq<char>>, ts: Ts)
    ensures
        forall|i: int|
            0 <= i < all_stale_edges(g, ops, srcs, ts).len() ==> (#[trigger] all_stale_edges(
                g,
                ops,
                srcs,
                ts,
            )[i]) is RetireEdge,
    decreases srcs.len(),
{
    if srcs.len() > 0 {
        lemma_stale_edges_retire(g, ops, srcs.drop_last(), ts);
        let a = all_stale_edges(g, ops, srcs.drop_last(), ts);
        let all = all_stale_edges(g, ops, srcs, ts);
        assert forall|i: int| 0 <= i < all.len() implies (#[trigger] all[i]) is RetireEdge by {
            if i < a.len() {
                assert(all[i] == a[i]);
            }
        }
    }
}

} // verus!
