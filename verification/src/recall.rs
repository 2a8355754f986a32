//! Recalling nodes by a query: its tokens, the nodes that they lead to, the
//! text of the answer, and the recalls that usage can still be credited to.

use crate::graph::TemporalGraph;
use crate::model::NodeId;
use crate::names;
use crate::names::name_tokens;
use crate::text;
use vstd::prelude::*;

verus! {

/// The members after one more; the oldest makes room once there are `cap`.
pub open spec fn pushed<T>(s: Seq<T>, cap: nat, x: T) -> Seq<T> {
    if s.len() == cap && s.len() > 0 {
        s.drop_first().push(x)
    } else {
        s.push(x)
    }
}

/// The members after several more.
pub open spec fn pushed_all<T>(cap: nat, xs: Seq<T>) -> Seq<T>
    decreases xs.len(),
{
    if xs.len() == 0 {
        Seq::empty()
    } else {
        pushed(pushed_all(cap, xs.drop_last()), cap, xs.last())
    }
}

/// A ring holds the last `cap` of what was pushed, oldest first.
pub proof fn ring_keeps_the_last<T>(cap: nat, xs: Seq<T>)
    requires
        cap > 0,
    ensures
        pushed_all(cap, xs) == (if xs.len() <= cap {
            xs
        } else {
            xs.skip(xs.len() - cap)
        }),
    decreases xs.len(),
{
    if xs.len() > 0 {
        let before = xs.drop_last();
        ring_keeps_the_last(cap, before);
        assert(before.push(xs.last()) =~= xs);
        if xs.len() > cap {
            if before.len() <= cap {
                assert(before.drop_first().push(xs.last()) =~= xs.skip(1));
            } else {
                assert(before.skip(before.len() - cap).drop_first().push(xs.last()) =~= xs.skip(
                    xs.len() - cap,
                ));
            }
        }
    } else {
        assert(pushed_all(cap, xs) =~= xs);
    }
}

/// A ring of the traces recorded last.
pub struct TraceRing<T> {
    cap: usize,
    buf: Vec<T>,
}

impl<T> View for TraceRing<T> {
    type V = Seq<T>;

    closed spec fn view(&self) -> Seq<T> {
        self.buf@
    }
}

impl<T> TraceRing<T> {
    pub closed spec fn cap_of(&self) -> nat {
        self.cap as nat
    }

    pub fn new(cap: usize) -> (res: Self)
        ensures
            res@ == Seq::<T>::empty(),
            res.cap_of() == cap,
    {
        TraceRing { cap, buf: Vec::new() }
    }

    pub fn cap(&self) -> (res: usize)
        ensures
            res == self.cap_of(),
    {
        self.cap
    }

    pub fn push(&mut self, tr: T)
        ensures
            final(self)@ == pushed(old(self)@, old(self).cap_of(), tr),
            final(self).cap_of() == old(self).cap_of(),
    {
        if self.buf.len() == self.cap && self.buf.len() > 0 {
            let _ = self.buf.remove(0);
            assert(self.buf@ =~= old(self).buf@.drop_first());
        }
        self.buf.push(tr);
    }

    /// The traces, oldest first.
    pub fn iter(&self) -> (res: std::slice::Iter<'_, T>)
        ensures
            vstd::std_specs::iter::IteratorSpec::remaining(&res) == self@.as_ref(),
    {
        self.buf.as_slice().iter()
    }
}

/// The tokens of a query, made as the tokens of names are.
pub fn query_tokens(q: &str) -> (res: Vec<String>)
    ensures
        text::views(res@) == names::tokens(q@),
{
    name_tokens(q)
}

/// The nodes that a query leads to: at most sixteen.
pub fn recall_seeds(g: &TemporalGraph, q: &str) -> (res: Vec<NodeId>)
    requires
        g.wf(),
    ensures
        names::smallest(
            res@,
            names::token_hits(
                names::token_index(g@.names()),
                names::tokens(q@),
                names::hit_cap(16),
            ),
            16,
        ),
        forall|i: int| 0 <= i < res@.len() ==> (#[trigger] res@[i]) < g@.nodes.len(),
{
    let tokens = query_tokens(q);
    g.match_tokens(&tokens, 16)
}

/// What a recall came to. Masses and activations are decimal texts.
pub enum Recalled {
    /// No node matches the query.
    NoSeeds,
    /// Nodes match, and nothing was activated.
    NoActivation,
    /// The activated mass, and the nodes with their activations.
    Found { mass: String, rows: Vec<(String, String)> },
}

pub open spec fn row_text(row: (String, String)) -> Seq<char> {
    "  "@ + row.0@ + "  "@ + row.1@ + "\n"@
}

pub open spec fn rows_text(rows: Seq<(String, String)>) -> Seq<char>
    decreases rows.len(),
{
    if rows.len() == 0 {
        Seq::empty()
    } else {
        rows_text(rows.drop_last()) + row_text(rows.last())
    }
}

/// The answer to a recall.
pub open spec fn recall_answer(q: Seq<char>, r: Recalled) -> Seq<char> {
    match r {
        Recalled::NoSeeds => "no memory matches '"@ + q + "' yet"@,
        Recalled::NoActivation => "'"@ + q + "' matched seeds but activated nothing"@,
        Recalled::Found { mass, rows } => "recall '"@ + q + "' (mass "@ + mass@ + "):\n"@
            + rows_text(rows@),
    }
}

/// The answer to a recall: a line for each node, its activation first.
pub fn recall_text(q: &str, r: &Recalled) -> (res: String)
    ensures
        res@ == recall_answer(q@, *r),
{
    let mut out = String::new();
    match r {
        Recalled::NoSeeds => {
            out.append("no memory matches '");
            out.append(q);
            out.append("' yet");
        },
        Recalled::NoActivation => {
            out.append("'");
            out.append(q);
            out.append("' matched seeds but activated nothing");
        },
        Recalled::Found { mass, rows } => {
            out.append("recall '");
            out.append(q);
            out.append("' (mass ");
            out.append(mass.as_str());
            out.append("):\n");
            let ghost head = out@;
            let mut i: usize = 0;
            assert(head =~= "recall '"@ + q@ + "' (mass "@ + mass@ + "):\n"@);
            assert(out@ =~= head + rows_text(rows@.take(0)));
            while i < rows.len()
                invariant
                    i <= rows@.len(),
                    out@ == head + rows_text(rows@.take(i as int)),
                decreases rows@.len() - i,
            {
                let (activation, node) = &rows[i];
                assert(rows@.take(i + 1).drop_last() =~= rows@.take(i as int));
                assert(rows@.take(i + 1).last() == rows@[i as int]);
                out.append("  ");
                out.append(activation.as_str());
                out.append("  ");
                out.append(node.as_str());
                out.append("\n");
                i += 1;
                assert(out@ =~= head + rows_text(rows@.take(i as int)));
            }
            assert(rows@.take(rows@.len() as int) =~= rows@);
        },
    }
    assert(out@ =~= recall_answer(q@, *r));
    out
}

/// Whether a retrieval surfaced the node called `path`, given the nodes that it
/// surfaced.
pub fn surfaced_here(g: &TemporalGraph, surfaced: &Vec<NodeId>, path: &str) -> (res: bool)
    requires
        g.wf(),
        forall|i: int| 0 <= i < surfaced@.len() ==> (#[trigger] surfaced@[i]) < g@.nodes.len(),
    ensures
        res == (g@.id_of(path@) matches Some(id) && surfaced@.contains(id)),
{
    proof {
        g.lemma_wf();
    }
    let id: NodeId = match g.id_of(path) {
        Some(id) => id,
        None => {
            return false;
        },
    };
    let mut i: usize = 0;
    while i < surfaced.len()
        invariant
            i <= surfaced@.len(),
            g@.id_of(path@) == Some(id),
            forall|j: int| 0 <= j < i ==> (#[trigger] surfaced@[j]) != id,
        decreases surfaced@.len() - i,
    {
        if surfaced[i] == id {
            assert(surfaced@.contains(id));
            return true;
        }
        i += 1;
    }
    false
}

} // verus!
