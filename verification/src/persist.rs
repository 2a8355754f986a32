//! A graph whose mutations are journaled.
//!
//! The log is the database: replaying it gives the graph back with its whole
//! history. Mutations are written to the log before they are applied; what has
//! not been written out yet is held as pending text.

use crate::entity;
use crate::entity::ingest_entities;
use crate::gcp;
use crate::gcp::{ingest_assets, parse_snapshot};
use crate::graph;
use crate::graph::{Op, TemporalGraph};
use crate::json;
use crate::model;
use crate::model::{GraphV, OpV, Ts};
use crate::records;
use crate::snapshot;
use crate::snapshot::{full_message, LogV, OpSink};
use crate::text;
use crate::wal;
use crate::wal::{record_of, replay_log, ReplayError};
use vstd::prelude::*;
use vstd::utf8;

verus! {

/// The header line of a log.
pub open spec fn header_text(id: Seq<char>) -> Seq<char> {
    "#psyrag-wal:v1 id="@ + id + seq!['\n']
}

/// The header line of a log.
pub fn header_line(id: &str) -> (res: String)
    ensures
        res@ == header_text(id@),
{
    let mut s = "#psyrag-wal:v1 id=".to_owned();
    s.append(id);
    s.push('\n');
    assert(s@ =~= header_text(id@));
    s
}

/// An identity is one word.
pub open spec fn is_word(id: Seq<char>) -> bool {
    id.len() > 0 && forall|i: int| 0 <= i < id.len() ==> !text::whitespace(#[trigger] id[i])
}

/// A log that holds its header alone is sound, replays to the empty graph and
/// has the identity of the header.
pub proof fn fresh_log_is_empty(id: Seq<char>)
    requires
        is_word(id),
    ensures
        wal::is_sound(header_text(id)),
        wal::replay(header_text(id))->Ok_0.graph == GraphV::empty(),
        wal::replay(header_text(id))->Ok_0.lsn == 0,
        wal::replay(header_text(id))->Ok_0.wal_id == Some(id),
{
    let head = "#psyrag-wal:v1 id="@;
    let line = head + id;
    reveal_strlit("#psyrag-wal:v1 id=");
    reveal_strlit("#psyrag-wal:v");
    reveal_strlit("id=");
    assert(head.len() == 18);
    assert(json::one_line(line)) by {
        assert forall|i: int| 0 <= i < line.len() implies line[i] != '\n' by {
            if i >= 18 {
                assert(!text::whitespace(id[i - 18]));
            }
        }
    }
    wal::lemma_split_line(Seq::empty(), line);
    let none = Seq::<char>::empty();
    assert(none + line + seq!['\n'] =~= header_text(id));
    let ps = text::split_char(none, '\n').drop_last();
    assert(ps =~= Seq::empty());
    let after = text::split_char(header_text(id), '\n');
    assert(after.drop_last() =~= seq![line]);
    assert(seq![line].drop_last() =~= Seq::empty());
    assert(line.last() == id[id.len() - 1]);
    assert(!text::whitespace(id[id.len() - 1]));
    assert(wal::without_crs(line) == line);
    assert(!text::whitespace(line[0]));
    assert(!records::is_blank(line));
    // The version.
    let prefix = "#psyrag-wal:v"@;
    assert(prefix.len() == 13);
    assert(prefix =~= line.subrange(0, 13));
    let rest = line.skip(13);
    let sep = text::separates();
    let keep = text::not_empty();
    let one = seq!['1'];
    let word = "id="@ + id;
    assert("id="@.len() == 3);
    assert(rest =~= one + seq![' '] + word);
    lemma_two_words(one, word);
    assert(word.len() > 0);
    assert(text::words(rest)[0] == one);
    assert(one.drop_last() =~= Seq::empty());
    assert(text::digits_value(Seq::<char>::empty()) == 0);
    assert(text::digits_value(one) == 1);
    assert(text::all_digits(one));
    assert(wal::header_version(line) == Some(1u32));
    // The identity.
    let first = "#psyrag-wal:v"@ + one;
    assert(line =~= first + seq![' '] + word);
    assert forall|i: int| 0 <= i < first.len() implies !text::whitespace(#[trigger] first[i]) by {
        assert(first[i] == head[i]);
    }
    lemma_two_words(first, word);
    let ws = text::words(line);
    assert(!"id="@.is_prefix_of(first)) by {
        assert(first[0] == '#');
        assert("id="@[0] == 'i');
    }
    assert(ws.drop_first()[0] == word);
    assert("id="@.is_prefix_of(word)) by {
        assert(word.subrange(0, 3) =~= "id="@);
    }
    assert(word.skip(3) =~= id);
    reveal_with_fuel(wal::first_id, 3);
    assert(wal::header_id(line) == Some(id));
    assert(wal::parsed_line(line) == Ok::<wal::ParsedV, Seq<char>>(wal::ParsedV::Header)) by {
        assert(line[0] == '#');
    }
    let start = wal::ReplayV::start();
    let fed = wal::feed(start, line, true);
    assert(fed is Ok);
    assert(wal::feed_all(Seq::empty()) == Ok::<wal::ReplayV, wal::ReplayErrorV>(start));
    assert(wal::feed_all(seq![line]) == fed);
    assert(after.last().len() == 0);
    assert(wal::replay(header_text(id)) == fed);
    assert(header_text(id).last() == '\n');
}

/// Two words with a blank between them.
proof fn lemma_two_words(a: Seq<char>, b: Seq<char>)
    requires
        a.len() > 0,
        b.len() > 0,
        forall|i: int| 0 <= i < a.len() ==> !text::whitespace(#[trigger] a[i]),
        forall|i: int| 3 <= i < b.len() ==> !text::whitespace(#[trigger] b[i]),
        forall|i: int| 0 <= i < 3 && i < b.len() ==> !text::whitespace(#[trigger] b[i]),
    ensures
        text::words(a + seq![' '] + b) == seq![a, b],
{
    let sep = text::separates();
    let keep = text::not_empty();
    let none = Seq::<char>::empty();
    text::lemma_split_extend(none, a, sep);
    assert(none + a =~= a);
    assert(text::split(none, sep) =~= seq![none]);
    assert(text::split(a, sep) =~= seq![a]);
    let mid = a + seq![' '];
    assert(mid.drop_last() =~= a);
    assert(text::split(mid, sep) =~= seq![a, none]);
    text::lemma_split_extend(mid, b, sep);
    assert(none + b =~= b);
    assert(text::split(mid + b, sep) =~= seq![a, b]);
    reveal(Seq::filter);
    let s = seq![a, b];
    assert(s.drop_last() =~= seq![a]);
    assert(s.drop_last().drop_last() =~= Seq::empty());
    assert(s.drop_last().drop_last().filter(keep) =~= Seq::empty());
    assert(s.drop_last().filter(keep) =~= seq![a]);
    assert(s.filter(keep) =~= s);
}

/// The mathematical form of a [`PersistentGraph`].
pub struct JournalV {
    pub graph: GraphV,
    pub log: LogV,
}

/// A graph with its log.
pub struct PersistentGraph {
    graph: TemporalGraph,
    pending: String,
    wal_id: Option<String>,
    lsn: u64,
    /// Half-written records dropped from the end of the log when it was opened.
    pub replay_skipped: usize,
}

impl View for PersistentGraph {
    type V = JournalV;

    closed spec fn view(&self) -> JournalV {
        JournalV {
            graph: self.graph@,
            log: LogV {
                pending: self.pending@,
                wal_id: graph::label_view(self.wal_id),
                lsn: self.lsn as nat,
                skipped: self.replay_skipped as nat,
            },
        }
    }
}

/// What a log of this content is opened as. A half-written record at the end
/// is dropped; a last record without its line feed gets it; an empty log gets
/// a header.
pub open spec fn opened(st: wal::ReplayV, fresh_id: Seq<char>) -> JournalV {
    JournalV {
        graph: st.graph,
        log: LogV {
            pending: (if st.needs_newline {
                seq!['\n']
            } else {
                Seq::empty()
            }) + (if st.empty {
                header_text(fresh_id)
            } else {
                Seq::empty()
            }),
            wal_id: if st.empty {
                Some(fresh_id)
            } else {
                st.wal_id
            },
            lsn: st.lsn,
            skipped: if st.bad is Some {
                1
            } else {
                0
            },
        },
    }
}

/// How many bytes of the log stay.
pub open spec fn kept(st: wal::ReplayV) -> nat {
    match st.bad {
        Some(b) => b.offset,
        None => st.offset,
    }
}

/// The journal after one mutation.
pub open spec fn journaled(j: JournalV, op: OpV) -> JournalV {
    JournalV {
        graph: j.graph.apply(op),
        log: LogV {
            pending: j.log.pending + wal::record_text(op) + seq!['\n'],
            lsn: snapshot::advanced(j.log.lsn, 1),
            ..j.log
        },
    }
}

/// The journal after several mutations that led to graph `g`.
pub open spec fn journaled_all(j: JournalV, ops: Seq<OpV>, g: GraphV) -> JournalV {
    JournalV {
        graph: g,
        log: LogV {
            pending: j.log.pending + wal::records_text(ops),
            lsn: snapshot::advanced(j.log.lsn, ops.len()),
            ..j.log
        },
    }
}

impl OpSink for PersistentGraph {
    open spec fn model(&self) -> GraphV {
        self@.graph
    }

    open spec fn journal(&self) -> Option<LogV> {
        Some(self@.log)
    }

    open spec fn sink_wf(&self) -> bool {
        self.wf()
    }

    open spec fn refuses(&self, op: OpV, error: Seq<char>) -> bool {
        !self@.graph.accepts(op) && error == "graph is full: no ids are left"@
    }

    open spec fn steady() -> bool {
        true
    }

    proof fn lemma_journal(&self) {
    }

    proof fn lemma_steady(&self, op: OpV, error: Seq<char>) {
    }

    fn record(&mut self, op: Op) -> (res: Result<(), String>)
        ensures
            res is Ok == old(self)@.graph.accepts(op@),
            final(self)@ == (if old(self)@.graph.accepts(op@) {
                journaled(old(self)@, op@)
            } else {
                old(self)@
            }),
    {
        if !self.graph.can_apply(&op) {
            return Err(full_message());
        }
        let ghost before = self.pending@;
        let line = record_of(&op);
        self.pending.append(line.as_str());
        self.pending.push('\n');
        self.graph.apply(&op);
        self.lsn = self.lsn.saturating_add(1);
        proof {
            assert(self.pending@ =~= before + wal::record_text(op@) + seq!['\n']);
            let one = seq![op@];
            assert(one.drop_last() =~= Seq::empty());
            assert(wal::records_text(one.drop_last()) =~= Seq::empty());
            assert(before + wal::records_text(one) =~= self.pending@);
        }
        Ok(())
    }

    fn graph(&self) -> (res: &TemporalGraph) {
        &self.graph
    }
}

/// An opened log, and how many of its bytes stay.
pub struct Opened {
    pub db: PersistentGraph,
    pub keep: usize,
}

impl PersistentGraph {
    pub closed spec fn wf(&self) -> bool {
        self.graph.wf()
    }

    /// Opens a log by its content. A log that was journaled to gives back the
    /// graph that the mutations led to. What comes after the bytes that stay is to
    /// be cut off the file before anything is written to it.
    pub fn open(log: &[u8], fresh_id: &str) -> (res: Result<Opened, ReplayError>)
        ensures
            match res {
                Ok(o) => o.db.wf() && wal::replay_bytes(log@) is Ok && o.db@ == opened(
                    wal::replay_bytes(log@)->Ok_0,
                    fresh_id@,
                ) && o.keep == kept(wal::replay_bytes(log@)->Ok_0),
                Err(e) => wal::replay_bytes(log@) == Err::<wal::ReplayV, wal::ReplayErrorV>(e@),
            },
            forall|before: Seq<char>, ops: Seq<OpV>|
                #![trigger wal::is_sound(before), wal::records_text(ops)]
                log@ == utf8::encode_utf8(before + wal::records_text(ops)) && wal::is_sound(before)
                    && wal::all_exact(ops) && snapshot::run(
                    wal::replay(before)->Ok_0.graph,
                    ops,
                ).1 ==> (res matches Ok(o) && o.db@.graph == wal::replay(
                    before,
                )->Ok_0.graph.apply_all(ops) && o.db@.log.skipped == 0),
    {
        proof {
            assert forall|before: Seq<char>, ops: Seq<OpV>|
                #![trigger wal::is_sound(before), wal::records_text(ops)]
                log@ == utf8::encode_utf8(
                    before + wal::records_text(ops),
                ) implies wal::replay_bytes(log@) == wal::replay(
                before + wal::records_text(ops),
            ) by {
                wal::text_is_replayed_as_text(before + wal::records_text(ops));
            }
        }
        let r = match replay_log(log) {
            Ok(r) => r,
            Err(e) => {
                return Err(e);
            },
        };
        let mut pending = String::new();
        let mut wal_id = r.wal_id;
        if r.needs_newline {
            pending.push('\n');
        }
        if r.empty {
            let h = header_line(fresh_id);
            pending.append(h.as_str());
            wal_id = Some(fresh_id.to_owned());
        }
        let (keep, skipped): (usize, usize) = match &r.bad {
            Some(b) => (b.offset, 1),
            None => (r.offset, 0),
        };
        let db = PersistentGraph {
            graph: r.graph,
            pending,
            wal_id,
            lsn: r.lsn,
            replay_skipped: skipped,
        };
        assert(db@.log.pending =~= opened(r@, fresh_id@).log.pending);
        Ok(Opened { db, keep })
    }

    /// The graph.
    pub fn graph(&self) -> (res: &TemporalGraph)
        requires
            self.wf(),
        ensures
            res.wf(),
            res@ == self@.graph,
    {
        &self.graph
    }

    /// The identity of the log.
    pub fn wal_id(&self) -> (res: Option<&str>)
        ensures
            graph::str_view(res) == self@.log.wal_id,
    {
        graph::label(&self.wal_id)
    }

    /// Mutations replayed and journaled.
    pub fn lsn(&self) -> (res: u64)
        ensures
            res == self@.log.lsn,
    {
        self.lsn
    }

    /// Journals and applies one mutation.
    pub fn record_op(&mut self, op: Op) -> (res: Result<(), String>)
        requires
            old(self).wf(),
        ensures
            final(self).wf(),
            res is Ok == old(self)@.graph.accepts(op@),
            final(self)@ == (if old(self)@.graph.accepts(op@) {
                journaled(old(self)@, op@)
            } else {
                old(self)@
            }),
    {
        self.record(op)
    }

    /// Hands out the log text that is still to be written.
    pub fn take_pending(&mut self) -> (res: String)
        requires
            old(self).wf(),
        ensures
            final(self).wf(),
            res@ == old(self)@.log.pending,
            final(self)@ == (JournalV {
                log: LogV { pending: Seq::empty(), ..old(self)@.log },
                ..old(self)@
            }),
    {
        let mut s = String::new();
        std::mem::swap(&mut s, &mut self.pending);
        s
    }

    /// Goes on with a log that was rewritten.
    pub(crate) fn restart(&mut self, id: String, lsn: u64)
        requires
            old(self).wf(),
        ensures
            final(self).wf(),
            final(self)@ == (JournalV {
                log: LogV {
                    pending: Seq::empty(),
                    wal_id: Some(id@),
                    lsn: lsn as nat,
                    ..old(self)@.log
                },
                ..old(self)@
            }),
    {
        self.pending = String::new();
        self.wal_id = Some(id);
        self.lsn = lsn;
    }

    pub(crate) fn replace_graph(&mut self, g: TemporalGraph)
        requires
            old(self).wf(),
            g.wf(),
        ensures
            final(self).wf(),
            final(self)@ == (JournalV { graph: g@, ..old(self)@ }),
    {
        self.graph = g;
    }

    /// Ingests entities given as JSON, labelled with `origin` where they have
    /// no label of their own.
    pub fn ingest_entities_from(
        &mut self,
        s: &str,
        ts: Ts,
        reconcile: bool,
        origin: Option<&str>,
    ) -> (res: Result<Vec<String>, String>)
        requires
            old(self).wf(),
        ensures
            final(self).wf(),
            match entity::parsed(s@) {
                Ok(es) => {
                    let ops = entity::all_ops(es, ts, graph::str_view(origin));
                    let names = entity::all_names(es);
                    let (g, outcome) = snapshot::ingested(
                        old(self)@.graph,
                        ops,
                        names,
                        ts,
                        reconcile,
                    );
                    &&& final(self)@ == journaled_all(
                        old(self)@,
                        snapshot::executed(old(self)@.graph, ops, names, ts, reconcile),
                        g,
                    )
                    &&& match res {
                        Ok(stale) => outcome == Some(text::views(stale@)),
                        Err(e) => outcome is None && e@ == "graph is full: no ids are left"@,
                    }
                },
                Err(m) => {
                    &&& final(self)@ == old(self)@
                    &&& res matches Err(e) && e@ == m
                },
            },
    {
        ingest_entities(self, s, ts, reconcile, origin)
    }

    /// Ingests entities given as JSON.
    pub fn ingest_entities(&mut self, s: &str, ts: Ts, reconcile: bool) -> (res: Result<
        Vec<String>,
        String,
    >)
        requires
            old(self).wf(),
        ensures
            final(self).wf(),
            match entity::parsed(s@) {
                Ok(es) => {
                    let ops = entity::all_ops(es, ts, None);
                    let names = entity::all_names(es);
                    let (g, outcome) = snapshot::ingested(
                        old(self)@.graph,
                        ops,
                        names,
                        ts,
                        reconcile,
                    );
                    &&& final(self)@ == journaled_all(
                        old(self)@,
                        snapshot::executed(old(self)@.graph, ops, names, ts, reconcile),
                        g,
                    )
                    &&& match res {
                        Ok(stale) => outcome == Some(text::views(stale@)),
                        Err(e) => outcome is None && e@ == "graph is full: no ids are left"@,
                    }
                },
                Err(m) => {
                    &&& final(self)@ == old(self)@
                    &&& res matches Err(e) && e@ == m
                },
            },
    {
        self.ingest_entities_from(s, ts, reconcile, None)
    }

    /// Ingests a complete snapshot of assets given as JSON.
    pub fn ingest_cai_snapshot(&mut self, s: &str, ts: Ts) -> (res: Result<Vec<String>, String>)
        requires
            old(self).wf(),
        ensures
            final(self).wf(),
            match gcp::parsed(s@) {
                Ok(assets) => {
                    let ops = gcp::all_ops(assets, ts);
                    let names = gcp::all_names(assets, ts);
                    let (g, outcome) = snapshot::ingested(old(self)@.graph, ops, names, ts, true);
                    &&& final(self)@ == journaled_all(
                        old(self)@,
                        snapshot::executed(old(self)@.graph, ops, names, ts, true),
                        g,
                    )
                    &&& match res {
                        Ok(stale) => outcome == Some(text::views(stale@)),
                        Err(e) => outcome is None && e@ == "graph is full: no ids are left"@,
                    }
                },
                Err(m) => {
                    &&& final(self)@ == old(self)@
                    &&& res matches Err(e) && e@ == m
                },
            },
    {
        match parse_snapshot(s) {
            Ok(assets) => ingest_assets(self, &assets, ts),
            Err(e) => Err(e),
        }
    }
}

} // verus!
