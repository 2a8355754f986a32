//! What a log withstands: a record that was cut off at its end, also inside of a
//! character, but not damage before its end.

use crate::bytes;
use crate::persist;
use crate::records;
use crate::text;
use crate::wal;
use crate::wal::{ReplayErrorV, ReplayV};
use vstd::prelude::*;
use vstd::utf8;

verus! {

/// A line that is no record: it is no text, or text that cannot be read.
pub open spec fn is_damaged(line: Seq<u8>) -> bool {
    &&& forall|i: int| 0 <= i < line.len() ==> #[trigger] line[i] != 10
    &&& match bytes::as_text(line) {
        Some(t) => !records::is_blank(wal::without_crs(t)) && wal::parsed_line(
            wal::without_crs(t),
        ) is Err,
        None => true,
    }
}

/// What is wrong with a line that is no record.
pub open spec fn damage(line: Seq<u8>) -> Seq<char> {
    wal::parsed_bytes(line)->Err_0
}

/// A line with more than white space on it.
pub open spec fn holds_data(line: Seq<u8>) -> bool {
    bytes::as_text(line) matches Some(t) ==> !records::is_blank(wal::without_crs(t))
}

proof fn lemma_damaged_nonempty(line: Seq<u8>)
    requires
        is_damaged(line),
    ensures
        line.len() > 0,
{
    if line.len() == 0 {
        assert(line =~= utf8::encode_utf8(Seq::<char>::empty()));
        bytes::lemma_encoded_text(Seq::empty());
    }
}

/// The lines of a sound log that is text, and where its replay stands.
proof fn lemma_sound_lines(log: Seq<char>)
    requires
        wal::is_sound(log),
    ensures
        ({
            let bs = bytes::lines(utf8::encode_utf8(log));
            &&& bs.len() >= 1
            &&& bs.last() == Seq::<u8>::empty()
            &&& wal::feed_all_bytes(bs.drop_last()) == wal::replay(log)
            &&& wal::replay(log)->Ok_0.offset == text::utf8_len(log)
        }),
{
    let cs = text::split_char(log, '\n');
    let b = utf8::encode_utf8(log);
    let bs = bytes::lines(b);
    text::lemma_split_nonempty(log, text::equals('\n'));
    bytes::lemma_lines_encoded(log);
    assert(cs.last() =~= Seq::empty());
    assert(utf8::encode_utf8(Seq::<char>::empty()) =~= Seq::empty());
    assert(bs.last() == utf8::encode_utf8(cs.last()));
    wal::text_is_replayed_as_text(log);
    bytes::lemma_lines_size(b);
    wal::lemma_bytes_position(bs.drop_last());
    assert(bytes::lines_size(bs) == bytes::lines_size(bs.drop_last()) + bs.last().len() + 1);
}

/// A record that was cut off when it was written is dropped, wherever it was cut:
/// the log replays to what it replayed to before, and the bytes before the record
/// are those that stay.
pub proof fn torn_tail_is_dropped(log: Seq<char>, tail: Seq<u8>)
    requires
        wal::is_sound(log),
        is_damaged(tail),
    ensures
        wal::replay_bytes(utf8::encode_utf8(log) + tail) matches Ok(st) && {
            &&& st.graph == wal::replay(log)->Ok_0.graph
            &&& st.lsn == wal::replay(log)->Ok_0.lsn
            &&& st.wal_id == wal::replay(log)->Ok_0.wal_id
            &&& st.bad is Some
            &&& persist::kept(st) == text::utf8_len(log)
        },
{
    let b = utf8::encode_utf8(log);
    let bs = bytes::lines(b);
    lemma_sound_lines(log);
    bytes::lemma_lines_extend(b, tail);
    let qs = bytes::lines(b + tail);
    assert(bs.last() + tail =~= tail);
    assert(qs.drop_last() =~= bs.drop_last());
    assert(qs.last() == tail);
    lemma_damaged_nonempty(tail);
}

/// A record that was cut inside of a character is dropped, whatever it held: bytes
/// that are no text are no record.
pub proof fn tail_cut_inside_a_character_is_dropped(log: Seq<char>, tail: Seq<u8>)
    requires
        wal::is_sound(log),
        !utf8::valid_utf8(tail),
        forall|i: int| 0 <= i < tail.len() ==> #[trigger] tail[i] != 10,
    ensures
        wal::replay_bytes(utf8::encode_utf8(log) + tail) matches Ok(st) && st.graph == wal::replay(
            log,
        )->Ok_0.graph && persist::kept(st) == text::utf8_len(log),
{
    torn_tail_is_dropped(log, tail);
}

/// A damaged line and one more after whole lines.
proof fn lemma_damage(ps: Seq<Seq<u8>>, line: Seq<u8>, next: Seq<u8>)
    requires
        wal::feed_all_bytes(ps) is Ok,
        wal::feed_all_bytes(ps)->Ok_0.bad is None,
        is_damaged(line),
        holds_data(next),
    ensures
        wal::feed_all_bytes(ps.push(line).push(next)) == Err::<ReplayV, ReplayErrorV>(
            ReplayErrorV::Corrupt {
                line: (wal::feed_all_bytes(ps)->Ok_0.line + 1) as nat,
                error: damage(line),
            },
        ),
{
    assert(ps.push(line).drop_last() =~= ps);
    assert(ps.push(line).last() == line);
    assert(ps.push(line).push(next).drop_last() =~= ps.push(line));
    assert(ps.push(line).push(next).last() == next);
    let st = wal::feed_all_bytes(ps)->Ok_0;
    assert(wal::feed_all_bytes(ps.push(line)) == wal::feed_bytes(st, line, true));
    let bad = wal::feed_bytes(st, line, true)->Ok_0;
    assert(wal::feed_all_bytes(ps.push(line).push(next)) == wal::feed_bytes(bad, next, true));
}

/// Damage before the end is refused: a damaged line with more after it is an
/// error that names the line, whatever comes further on.
pub proof fn damage_before_the_end_is_refused(
    log: Seq<char>,
    line: Seq<u8>,
    next: Seq<u8>,
    rest: Seq<u8>,
)
    requires
        wal::is_sound(log),
        is_damaged(line),
        forall|i: int| 0 <= i < next.len() ==> #[trigger] next[i] != 10,
        holds_data(next),
    ensures
        wal::replay_bytes(
            utf8::encode_utf8(log) + line + seq![10u8] + next + seq![10u8] + rest,
        ) matches Err(e) && e == (ReplayErrorV::Corrupt {
            line: (wal::replay(log)->Ok_0.line + 1) as nat,
            error: damage(line),
        }),
{
    let b = utf8::encode_utf8(log);
    let ps = bytes::lines(b).drop_last();
    lemma_sound_lines(log);
    lemma_damage(ps, line, next);
    let none = Seq::<u8>::empty();
    bytes::lemma_lines_extend(b, line);
    assert(none + line =~= line);
    bytes::lemma_lines_extend(none, next);
    assert(none + next =~= next);
    assert(bytes::lines(none) =~= seq![none]);
    assert(bytes::lines(next) =~= seq![next]);
    bytes::lemma_lines_join(next, rest);
    bytes::lemma_lines_join(b + line, next + seq![10u8] + rest);
    let all = b + line + seq![10u8] + next + seq![10u8] + rest;
    assert(all =~= b + line + seq![10u8] + (next + seq![10u8] + rest));
    let rs = bytes::lines(rest);
    bytes::lemma_lines_nonempty(rest);
    let head = ps.push(line).push(next);
    assert(bytes::lines(all) =~= head + rs);
    let body = (head + rs).drop_last();
    assert(body.take(head.len() as int) =~= head);
    wal::lemma_bytes_fail(body, head.len() as int);
}

} // verus!
