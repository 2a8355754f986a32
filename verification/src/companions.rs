//! Laws of what is touched together, stated over paths: which files a touch
//! links, what the window holds, which files a commit links.

use crate::model::{GraphV, OpV, Ts};
use crate::moments;
use crate::query;
use crate::recording;
use crate::records;
use crate::snapshot;
use crate::text;
use crate::touch;
use vstd::prelude::*;

verus! {

/// A filter that leaves one path out, as positions.
proof fn lemma_others(recent: Seq<Seq<char>>, path: Seq<char>) -> (at: Seq<int>)
    ensures
        moments::listed_at(
            at,
            recent.filter(touch::other_than(path)),
            recent.len(),
            |i: int| recent[i] != path,
            |i: int| recent[i],
        ),
{
    let p = touch::other_than(path);
    let at = moments::lemma_filter_lists(recent, p);
    let picked = |i: int| p(recent[i]);
    let chosen = |i: int| recent[i] != path;
    assert forall|i: int| 0 <= i < recent.len() && #[trigger] chosen(i) implies at.contains(i) by {
        assert(picked(i));
    }
    assert forall|k: int| 0 <= k < at.len() implies 0 <= (#[trigger] at[k]) < recent.len()
        && chosen(at[k]) && recent.filter(p)[k] == recent[at[k]] by {
        assert(picked(at[k]));
    }
    at
}

/// A touch puts its path first in the window; behind it stand the other paths as
/// they stood, as many as the window has room for.
pub proof fn touched_path_comes_first(recent: Seq<Seq<char>>, path: Seq<char>, span: nat)
    requires
        span > 0,
    ensures
        touch::touched(recent, path, span).len() > 0,
        touch::touched(recent, path, span)[0] == path,
        moments::lists_first(
            touch::touched(recent, path, span).skip(1),
            (span - 1) as nat,
            recent.len(),
            |i: int| recent[i] != path,
            |i: int| recent[i],
        ),
{
    let rest = recent.filter(touch::other_than(path));
    let w = touch::touched(recent, path, span);
    let at = lemma_others(recent, path);
    let most = (span - 1) as nat;
    moments::lemma_lists_first(
        at,
        rest,
        most,
        recent.len(),
        |i: int| recent[i] != path,
        |i: int| recent[i],
    );
    if rest.len() <= most {
        assert(w.skip(1) =~= rest);
    } else {
        assert(w.skip(1) =~= rest.take(most as int));
    }
}

/// A touch is paired with every other path of the window, newest first.
pub proof fn touch_is_paired_with_the_window(recent: Seq<Seq<char>>, path: Seq<char>)
    ensures
        moments::lists(
            recent.filter(touch::other_than(path)).map_values(touch::paired(path)),
            recent.len(),
            |i: int| recent[i] != path,
            |i: int| (path, recent[i]),
        ),
{
    let at = lemma_others(recent, path);
    let rest = recent.filter(touch::other_than(path));
    let pairs = rest.map_values(touch::paired(path));
    let chosen = |i: int| recent[i] != path;
    assert forall|k: int| 0 <= k < at.len() implies 0 <= (#[trigger] at[k]) < recent.len()
        && chosen(at[k]) && pairs[k] == (path, recent[at[k]]) by {
        assert(rest[k] == recent[at[k]]);
    }
    assert(moments::listed_at(
        at,
        pairs,
        recent.len(),
        chosen,
        |i: int| (path, recent[i]),
    ));
}

/// The mutation observes a file, or that two files were edited together.
spec fn is_file_op(op: OpV, ts: Ts) -> bool {
    match op {
        OpV::ObserveNode { asset_type, ts: t, origin, .. } => asset_type == "file"@ && t == ts
            && origin == Some("mcp"@),
        OpV::ObserveEdge { kind, ts: t, origin, .. } => kind == "CO_EDITED"@ && t == ts && origin
            == Some("mcp"@),
        _ => false,
    }
}

spec fn edit_op(src: Seq<char>, dst: Seq<char>, ts: Ts) -> OpV {
    OpV::ObserveEdge { src, dst, kind: "CO_EDITED"@, ts, origin: Some("mcp"@) }
}

/// What links are made of.
proof fn lemma_links(pairs: Seq<(Seq<char>, Seq<char>)>, ts: Ts)
    ensures
        ({
            let r = touch::links(pairs, ts);
            &&& forall|k: int| 0 <= k < r.len() ==> is_file_op(#[trigger] r[k], ts)
            &&& forall|k: int, src: Seq<char>, dst: Seq<char>|
                0 <= k < r.len() && #[trigger] r[k] == #[trigger] edit_op(src, dst, ts)
                    ==> pairs.contains((src, dst))
            &&& forall|i: int|
                0 <= i < pairs.len() ==> r.contains(
                    edit_op((#[trigger] pairs[i]).0, pairs[i].1, ts),
                )
        }),
    decreases pairs.len(),
{
    if pairs.len() > 0 {
        let front = pairs.drop_last();
        lemma_links(front, ts);
        let a = touch::links(front, ts);
        let r = touch::links(pairs, ts);
        assert(pairs[pairs.len() - 1] == pairs.last());
        assert forall|k: int| 0 <= k < r.len() implies is_file_op(#[trigger] r[k], ts) by {
            if k < a.len() {
                assert(r[k] == a[k]);
            }
        }
        assert forall|k: int, src: Seq<char>, dst: Seq<char>|
            0 <= k < r.len() && #[trigger] r[k] == #[trigger] edit_op(
                src,
                dst,
                ts,
            ) implies pairs.contains((src, dst)) by {
            if k < a.len() {
                assert(r[k] == a[k]);
                assert(front.contains((src, dst)));
                assert(pairs[front.index_of((src, dst))] == (src, dst));
            } else {
                assert(pairs.last() == (src, dst));
            }
        }
        assert forall|i: int| 0 <= i < pairs.len() implies r.contains(
            edit_op((#[trigger] pairs[i]).0, pairs[i].1, ts),
        ) by {
            let op = edit_op(pairs[i].0, pairs[i].1, ts);
            if i < front.len() {
                assert(front[i] == pairs[i]);
                let k = a.index_of(op);
                assert(r[k] == op);
            } else {
                assert(r[r.len() - 1] == op);
            }
        }
    }
}

/// A touch links its path to every other path of the window: an open edge leads
/// from the one to the other.
pub proof fn touch_links_the_window(
    g: GraphV,
    path: Seq<char>,
    recent: Seq<Seq<char>>,
    ts: Ts,
    i: int,
)
    requires
        g.wf(),
        snapshot::run(g, touch::touch_ops(path, recent, ts)).1,
        0 <= i < recent.len(),
        recent[i] != path,
    ensures
        recording::are_joined(
            snapshot::run(g, touch::touch_ops(path, recent, ts)).0,
            path,
            recent[i],
            "CO_EDITED"@,
        ),
{
    let rest = recent.filter(touch::other_than(path));
    let pairs = rest.map_values(touch::paired(path));
    let ops = touch::touch_ops(path, recent, ts);
    let r = touch::links(pairs, ts);
    let at = lemma_others(recent, path);
    let chosen = |i: int| recent[i] != path;
    lemma_links(pairs, ts);
    assert(chosen(i));
    let q = at.index_of(i);
    assert(rest[q] == recent[i]);
    assert(pairs[q] == (path, recent[i]));
    let op = edit_op(pairs[q].0, pairs[q].1, ts);
    assert(r.contains(op));
    let k = r.index_of(op);
    assert(ops[k + 1] == op);
    assert forall|j: int| k + 1 < j < ops.len() implies recording::observes(#[trigger] ops[j]) by {
        assert(ops[j] == r[j - 1]);
        assert(is_file_op(r[j - 1], ts));
    }
    recording::observed_edge_stays_joined(
        g,
        ops,
        k + 1,
        path,
        recent[i],
        "CO_EDITED"@,
        ts,
        Some("mcp"@),
    );
}

/// A touch links nothing else: what is joined after it was joined before, or
/// leads from its path to another one of the window.
pub proof fn touch_links_nothing_else(
    g: GraphV,
    path: Seq<char>,
    recent: Seq<Seq<char>>,
    ts: Ts,
    i: int,
    src: Seq<char>,
    dst: Seq<char>,
    kind: Seq<char>,
)
    requires
        g.wf(),
        recording::joined(
            snapshot::run(g, touch::touch_ops(path, recent, ts)).0,
            i,
            src,
            dst,
            kind,
        ),
    ensures
        recording::joined(g, i, src, dst, kind) || (src == path && dst != path && recent.contains(
            dst,
        ) && kind == "CO_EDITED"@),
{
    let rest = recent.filter(touch::other_than(path));
    let pairs = rest.map_values(touch::paired(path));
    let ops = touch::touch_ops(path, recent, ts);
    let r = touch::links(pairs, ts);
    lemma_links(pairs, ts);
    recording::what_is_joined_was_observed(g, ops, i, src, dst, kind);
    if !recording::joined(g, i, src, dst, kind) {
        let k = choose|k: int|
            0 <= k < ops.len() && recording::joins(#[trigger] ops[k], src, dst, kind);
        assert(k > 0);
        assert(ops[k] == r[k - 1]);
        assert(is_file_op(r[k - 1], ts));
        assert(r[k - 1] == edit_op(src, dst, ts));
        assert(pairs.contains((src, dst)));
        let q = pairs.index_of((src, dst));
        query::lemma_filter_members(recent, touch::other_than(path));
        assert(recent.contains(rest[q]) && touch::other_than(path)(rest[q]));
    }
}

// ---------------------------------------------------------------------------
// Commits
// ---------------------------------------------------------------------------

/// The files of a commit are its first five lines that hold more than white
/// space, each without the white space around it.
pub proof fn files_are_the_first_lines_of_a_commit(commit: Seq<char>)
    ensures
        moments::lists_first(
            touch::commit_files(commit),
            5,
            records::lines(commit).len(),
            |i: int| text::trimmed(records::lines(commit)[i]).len() > 0,
            |i: int| text::trimmed(records::lines(commit)[i]),
        ),
{
    let lines = records::lines(commit);
    let all = lines.map_values(touch::trim_of());
    let keep = text::not_empty();
    let kept = all.filter(keep);
    let at = moments::lemma_filter_lists(all, keep);
    let picked = |i: int| keep(all[i]);
    let chosen = |i: int| text::trimmed(lines[i]).len() > 0;
    let item = |i: int| text::trimmed(lines[i]);
    assert forall|i: int| 0 <= i < lines.len() && #[trigger] chosen(i) implies at.contains(i) by {
        assert(picked(i));
    }
    assert forall|k: int| 0 <= k < at.len() implies 0 <= (#[trigger] at[k]) < lines.len() && chosen(
        at[k],
    ) && kept[k] == item(at[k]) by {
        assert(picked(at[k]));
    }
    moments::lemma_lists_first(at, kept, 5, lines.len(), chosen, item);
}

/// What the mutations of a commit are.
proof fn lemma_commit(files: Seq<Seq<char>>, n: int, ts: Ts)
    requires
        n <= files.len(),
    ensures
        ({
            let r = touch::commit_ops(files, n, ts);
            &&& forall|k: int| 0 <= k < r.len() ==> is_file_op(#[trigger] r[k], ts)
            &&& forall|k: int, src: Seq<char>, dst: Seq<char>|
                0 <= k < r.len() && #[trigger] r[k] == #[trigger] edit_op(src, dst, ts)
                    ==> are_listed(files, src, dst)
            &&& forall|i: int, j: int|
                0 <= i < n && i < j < files.len() ==> r.contains(
                    edit_op(#[trigger] files[i], #[trigger] files[j], ts),
                )
        }),
    decreases n,
{
    if n > 0 {
        lemma_commit(files, n - 1, ts);
        let a = touch::commit_ops(files, n - 1, ts);
        let b = seq![touch::file_node(files[n - 1], ts)];
        let c = files.skip(n).map_values(touch::co_edits_of(files[n - 1], ts));
        let r = touch::commit_ops(files, n, ts);
        assert(r =~= a + b + c);
        assert forall|k: int| 0 <= k < r.len() implies is_file_op(#[trigger] r[k], ts) by {
            if k < a.len() {
                assert(r[k] == a[k]);
            } else if k > a.len() {
                assert(r[k] == c[k - a.len() - 1]);
            }
        }
        assert forall|k: int, src: Seq<char>, dst: Seq<char>|
            0 <= k < r.len() && #[trigger] r[k] == #[trigger] edit_op(
                src,
                dst,
                ts,
            ) implies are_listed(files, src, dst) by {
            if k < a.len() {
                assert(r[k] == a[k]);
            } else if k > a.len() {
                let q = k - a.len() - 1;
                assert(r[k] == c[q]);
                assert(c[q] == touch::co_edit(files[n - 1], files[n + q], ts));
                assert(files[n - 1] == src && files[n + q] == dst);
            }
        }
        assert forall|i: int, j: int| 0 <= i < n && i < j < files.len() implies r.contains(
            edit_op(#[trigger] files[i], #[trigger] files[j], ts),
        ) by {
            let op = edit_op(files[i], files[j], ts);
            if i < n - 1 {
                assert(a.contains(op));
                let k = a.index_of(op);
                assert(r[k] == op);
            } else {
                assert(c[j - n] == op);
                assert(r[a.len() + 1 + (j - n)] == op);
            }
        }
    }
}

/// One file is listed before the other.
pub open spec fn are_listed(files: Seq<Seq<char>>, src: Seq<char>, dst: Seq<char>) -> bool {
    exists|i: int, j: int|
        0 <= i < j < files.len() && #[trigger] files[i] == src && #[trigger] files[j] == dst
}

proof fn lemma_commits(commits: Seq<Seq<char>>, ts: Ts)
    ensures
        ({
            let r = touch::commits_ops(commits, ts);
            &&& forall|k: int| 0 <= k < r.len() ==> is_file_op(#[trigger] r[k], ts)
            &&& forall|k: int, src: Seq<char>, dst: Seq<char>|
                0 <= k < r.len() && #[trigger] r[k] == #[trigger] edit_op(src, dst, ts)
                    ==> some_commit_lists(commits, src, dst)
            &&& forall|c: int, src: Seq<char>, dst: Seq<char>|
                0 <= c < commits.len() && #[trigger] are_listed(
                    touch::commit_files(commits[c]),
                    src,
                    dst,
                ) ==> r.contains(edit_op(src, dst, ts))
        }),
    decreases commits.len(),
{
    if commits.len() > 0 {
        let front = commits.drop_last();
        let files = touch::commit_files(commits.last());
        lemma_commits(front, ts);
        lemma_commit(files, files.len() as int, ts);
        let a = touch::commits_ops(front, ts);
        let b = touch::commit_ops(files, files.len() as int, ts);
        let r = touch::commits_ops(commits, ts);
        assert(commits[commits.len() - 1] == commits.last());
        assert forall|k: int| 0 <= k < r.len() implies is_file_op(#[trigger] r[k], ts) by {
            if k < a.len() {
                assert(r[k] == a[k]);
            } else {
                assert(r[k] == b[k - a.len()]);
            }
        }
        assert forall|k: int, src: Seq<char>, dst: Seq<char>|
            0 <= k < r.len() && #[trigger] r[k] == #[trigger] edit_op(
                src,
                dst,
                ts,
            ) implies some_commit_lists(commits, src, dst) by {
            if k < a.len() {
                assert(r[k] == a[k]);
                let c = choose|c: int|
                    0 <= c < front.len() && are_listed(
                        touch::commit_files(#[trigger] front[c]),
                        src,
                        dst,
                    );
                assert(commits[c] == front[c]);
            } else {
                assert(r[k] == b[k - a.len()]);
                assert(are_listed(
                    touch::commit_files(commits[commits.len() - 1]),
                    src,
                    dst,
                ));
            }
        }
        assert forall|c: int, src: Seq<char>, dst: Seq<char>|
            0 <= c < commits.len() && #[trigger] are_listed(
                touch::commit_files(commits[c]),
                src,
                dst,
            ) implies r.contains(edit_op(src, dst, ts)) by {
            let op = edit_op(src, dst, ts);
            if c < front.len() {
                assert(front[c] == commits[c]);
                assert(are_listed(touch::commit_files(front[c]), src, dst));
                let k = a.index_of(op);
                assert(r[k] == op);
            } else {
                let (i, j) = choose|i: int, j: int|
                    0 <= i < j < files.len() && #[trigger] files[i] == src && #[trigger] files[j]
                        == dst;
                assert(b.contains(edit_op(files[i], files[j], ts)));
                let k = b.index_of(op);
                assert(r[a.len() + k] == op);
            }
        }
    }
}

/// Some commit lists the one file before the other.
pub open spec fn some_commit_lists(commits: Seq<Seq<char>>, src: Seq<char>, dst: Seq<char>) -> bool {
    exists|c: int|
        0 <= c < commits.len() && are_listed(touch::commit_files(#[trigger] commits[c]), src, dst)
}

/// A history links the files of each commit: two files are joined, from the one
/// listed first to the other, exactly where some commit lists both. A graph that
/// starts from nothing has no other links.
pub proof fn history_links_the_files_of_a_commit(
    history: Seq<char>,
    ts: Ts,
    src: Seq<char>,
    dst: Seq<char>,
    kind: Seq<char>,
)
    requires
        snapshot::run(GraphV::empty(), touch::history_ops(history, ts)).1,
    ensures
        recording::are_joined(
            snapshot::run(GraphV::empty(), touch::history_ops(history, ts)).0,
            src,
            dst,
            kind,
        ) <==> kind == "CO_EDITED"@ && some_commit_lists(
            text::split_char(history, '\0'),
            src,
            dst,
        ),
{
    let commits = text::split_char(history, '\0');
    let ops = touch::history_ops(history, ts);
    let h = snapshot::run(GraphV::empty(), ops).0;
    lemma_commits(commits, ts);
    if recording::are_joined(h, src, dst, kind) {
        let i = choose|i: int| recording::joined(h, i, src, dst, kind);
        recording::what_is_joined_was_observed(GraphV::empty(), ops, i, src, dst, kind);
        let k = choose|k: int|
            0 <= k < ops.len() && recording::joins(#[trigger] ops[k], src, dst, kind);
        assert(is_file_op(ops[k], ts));
        assert(ops[k] == edit_op(src, dst, ts));
    }
    if kind == "CO_EDITED"@ && some_commit_lists(commits, src, dst) {
        let c = choose|c: int|
            0 <= c < commits.len() && are_listed(
                touch::commit_files(#[trigger] commits[c]),
                src,
                dst,
            );
        let op = edit_op(src, dst, ts);
        assert(ops.contains(op));
        let k = ops.index_of(op);
        assert forall|j: int| k < j < ops.len() implies recording::observes(#[trigger] ops[j]) by {
            assert(is_file_op(ops[j], ts));
        }
        recording::observed_edge_stays_joined(
            GraphV::empty(),
            ops,
            k,
            src,
            dst,
            kind,
            ts,
            Some("mcp"@),
        );
    }
}

} // verus!
