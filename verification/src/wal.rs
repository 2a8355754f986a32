//! The write-ahead log: one mutation per line.
//!
//! A record is `crc32hex8:{json}`: eight hexadecimal digits of the checksum of
//! the JSON bytes, a colon, the JSON text. A file begins with a header line
//! `#psyrag-wal:v1 id=...`. Lines of bare JSON, without a checksum, are read
//! too.
//!
//! A record that cannot be read is tolerated at the end of the file only,
//! where a crash may have left it half written. Anywhere else it stops the
//! replay: edge ids count the records before them, so a record passed over
//! would shift every later id.

use crate::bytes;
use crate::bytes::{lines_of_bytes, text_of_bytes};
use crate::codec;
use crate::codec::{decode_op, encode_op};
use crate::crc;
use crate::crc::crc32;
use crate::graph;
use crate::graph::{Op, TemporalGraph};
use crate::json;
use crate::json::parse_json;
use crate::model::{GraphV, OpV};
use crate::records;
use crate::records::blank;
use crate::snapshot;
use crate::text;
use crate::text::{
    after_prefix, byte_len, chars_of, decimal_text, push_hex, read_decimal, read_hex,
    text_of, words_of,
};
use vstd::prelude::*;
use vstd::utf8;

verus! {

/// The newest format that can be read.
pub const WAL_VERSION_MAX: u32 = 1;

/// A JSON text with its checksum before it.
pub open spec fn framed(s: Seq<char>) -> Seq<char> {
    text::hex_padded(crc::checksum(utf8::encode_utf8(s)) as nat, 8) + seq![':'] + s
}

/// The text of a mutation.
pub open spec fn op_text(op: OpV) -> Seq<char> {
    json::json_text(codec::op_json(op))
}

/// A record as it stands in the log, without the line feed.
pub open spec fn record_text(op: OpV) -> Seq<char> {
    framed(op_text(op))
}

/// A JSON text with its checksum before it.
pub fn frame(s: &str) -> (res: String)
    ensures
        res@ == framed(s@),
{
    let c = crc32(s.as_bytes());
    let mut out = String::new();
    push_hex(&mut out, c as u64, 8);
    let ghost h = text::hex_padded(c as nat, 8);
    assert(out@ =~= h);
    out.push(':');
    out.append(s);
    assert(out@ =~= h + seq![':'] + s@);
    out
}

/// A record as it stands in the log, without the line feed.
pub fn record_of(op: &Op) -> (res: String)
    ensures
        res@ == record_text(op@),
{
    let t = encode_op(op).text();
    frame(t.as_str())
}

/// What a line of the log holds.
#[derive(Debug)]
pub enum Parsed {
    /// A header or a comment.
    Header,
    Record(Op),
}

/// The mathematical form of a [`Parsed`].
pub enum ParsedV {
    Header,
    Record(OpV),
}

impl View for Parsed {
    type V = ParsedV;

    open spec fn view(&self) -> ParsedV {
        match *self {
            Parsed::Header => ParsedV::Header,
            Parsed::Record(op) => ParsedV::Record(op@),
        }
    }
}

/// Whether a line has the shape of a record with a checksum.
pub open spec fn has_frame(s: Seq<char>) -> bool {
    s.len() > 9 && s[8] == ':' && forall|i: int| 0 <= i < 8 ==> text::is_hex(#[trigger] s[i])
}

/// The mutation that a JSON text stands for, or what is wrong with it. Of a
/// member that is repeated the last one counts. JSON that is no mutation is
/// answered in words of this library, not of `serde`.
pub open spec fn op_of_text(s: Seq<char>) -> Result<OpV, Seq<char>> {
    match json::json_parse(s) {
        Ok(v) => match codec::op_of(v) {
            Some(op) => Ok(op),
            None => Err("not an operation"@),
        },
        Err(e) => Err(e),
    }
}

pub open spec fn mismatch_text(want: nat, got: nat) -> Seq<char> {
    "crc mismatch (recorded "@ + text::hex_padded(want, 8) + ", computed "@ + text::hex_padded(
        got,
        8,
    ) + ")"@
}

/// What a line holds, or what is wrong with it. The text of a record with a
/// checksum is looked at only where the checksum is right.
pub open spec fn parsed_line(s: Seq<char>) -> Result<ParsedV, Seq<char>> {
    if s.len() > 0 && s[0] == '#' {
        Ok(ParsedV::Header)
    } else if has_frame(s) {
        let want = text::hex_number(s.take(8));
        let got = crc::checksum(utf8::encode_utf8(s.skip(9))) as nat;
        if want != got {
            Err(mismatch_text(want, got))
        } else {
            match op_of_text(s.skip(9)) {
                Ok(op) => Ok(ParsedV::Record(op)),
                Err(e) => Err("valid crc but unparseable op (schema change?): "@ + e),
            }
        }
    } else {
        match op_of_text(s) {
            Ok(op) => Ok(ParsedV::Record(op)),
            Err(e) => Err("unparseable record: "@ + e),
        }
    }
}

fn parse_op(s: &str) -> (res: Result<Op, String>)
    ensures
        match res {
            Ok(op) => op_of_text(s@) == Ok::<OpV, Seq<char>>(op@),
            Err(e) => op_of_text(s@) == Err::<OpV, Seq<char>>(e@),
        },
        forall|op: OpV|
            s@ == #[trigger] op_text(op) && codec::op_exact(op) ==> op_of_text(s@) == Ok::<
                OpV,
                Seq<char>,
            >(op),
{
    proof {
        assert forall|op: OpV| s@ == #[trigger] op_text(op) && codec::op_exact(op) implies s@
            == json::json_text(codec::op_json(op)) && json::json_exact(
            codec::op_json(op),
            json::JSON_DEPTH as nat,
        ) && codec::op_of(json::json_sorted(codec::op_json(op))) == Some(op) by {
            codec::op_survives_encoding(op);
        }
    }
    match parse_json(s) {
        Ok(j) => match decode_op(&j) {
            Some(op) => Ok(op),
            None => Err("not an operation".to_owned()),
        },
        Err(e) => Err(e),
    }
}

fn prefixed(p: &str, e: &str) -> (res: String)
    ensures
        res@ == p@ + e@,
{
    let mut s = p.to_owned();
    s.append(e);
    s
}

/// The shape of a record that was written for a mutation.
pub proof fn lemma_record_shape(op: OpV)
    requires
        codec::op_exact(op),
    ensures
        has_frame(record_text(op)),
        record_text(op)[0] != '#',
        text::hex_number(record_text(op).take(8)) == crc::checksum(utf8::encode_utf8(op_text(op))),
        record_text(op).skip(9) == op_text(op),
        json::one_line(record_text(op)),
        without_crs(record_text(op)) == record_text(op),
        !records::is_blank(record_text(op)),
{
    let t = op_text(op);
    let c = crc::checksum(utf8::encode_utf8(t));
    let h = text::hex_padded(c as nat, 8);
    let r = record_text(op);
    codec::op_survives_encoding(op);
    json::lemma_text_one_line(codec::op_json(op), json::JSON_DEPTH as nat);
    text::lemma_hex_padded_len(c as nat, 8);
    assert(text::pow16(8) == 0x1_0000_0000) by {
        reveal_with_fuel(text::pow16, 9);
    }
    text::lemma_hex_roundtrip(c as nat, 8);
    assert(r.take(8) =~= h);
    assert(r.skip(9) =~= t);
    assert(t[t.len() - 1] == '}');
    assert(t.len() >= 2);
    assert forall|i: int| 0 <= i < 8 implies text::is_hex(#[trigger] r[i]) by {
        assert(r[i] == h[i]);
    }
    assert(r[8] == ':');
    assert(!text::whitespace(r[8]));
    assert(r.last() == '}');
    assert(text::is_hex(h[0]));
    assert forall|i: int| 0 <= i < r.len() implies r[i] != '\n' by {
        if i < 8 {
            assert(text::is_hex(r[i]));
        } else if i > 8 {
            assert(r[i] == t[i - 9]);
        }
    }
}

/// Reads one line of the log: a record with a checksum, bare JSON, or a
/// header. A record that was written for a mutation reads as that mutation.
pub fn parse_line(s: &str) -> (res: Result<Parsed, String>)
    ensures
        match res {
            Ok(p) => parsed_line(s@) == Ok::<ParsedV, Seq<char>>(p@),
            Err(e) => parsed_line(s@) == Err::<ParsedV, Seq<char>>(e@),
        },
        forall|op: OpV|
            s@ == #[trigger] record_text(op) && codec::op_exact(op) ==> parsed_line(s@) == Ok::<
                ParsedV,
                Seq<char>,
            >(ParsedV::Record(op)),
{
    proof {
        assert forall|op: OpV| s@ == #[trigger] record_text(op) && codec::op_exact(op) implies {
            &&& has_frame(s@)
            &&& s@[0] != '#'
            &&& text::hex_number(s@.take(8)) == crc::checksum(utf8::encode_utf8(op_text(op)))
            &&& s@.skip(9) == op_text(op)
        } by {
            lemma_record_shape(op);
        }
    }
    let v = chars_of(s);
    if v.len() > 0 && v[0] == '#' {
        return Ok(Parsed::Header);
    }
    if v.len() > 9 && v[8] == ':' {
        if let Some(want) = read_hex(&v, 0, 8) {
            assert(v@.subrange(0, 8) =~= s@.take(8));
            assert(has_frame(s@));
            let t = text_of(&v, 9, v.len());
            assert(t@ =~= s@.skip(9));
            let got = crc32(t.as_str().as_bytes());
            if got != want {
                let mut e = "crc mismatch (recorded ".to_owned();
                push_hex(&mut e, want as u64, 8);
                e.append(", computed ");
                push_hex(&mut e, got as u64, 8);
                e.append(")");
                return Err(e);
            }
            return match parse_op(t.as_str()) {
                Ok(op) => Ok(Parsed::Record(op)),
                Err(e) => Err(
                    prefixed("valid crc but unparseable op (schema change?): ", e.as_str()),
                ),
            };
        } else {
            assert(!has_frame(s@)) by {
                let i = choose|i: int| 0 <= i < 8 && !text::is_hex(#[trigger] v@[i]);
                assert(!text::is_hex(s@[i]));
            }
        }
    }
    match parse_op(s) {
        Ok(op) => Ok(Parsed::Record(op)),
        Err(e) => Err(prefixed("unparseable record: ", e.as_str())),
    }
}

/// Whether a line has the shape of a record with a checksum.
fn is_framed(s: &str) -> (res: bool)
    ensures
        res == has_frame(s@),
{
    let v = chars_of(s);
    if v.len() <= 9 || v[8] != ':' {
        return false;
    }
    match read_hex(&v, 0, 8) {
        Some(_) => {
            assert forall|i: int| 0 <= i < 8 implies text::is_hex(#[trigger] s@[i]) by {
                assert(text::is_hex(v@[i]));
            }
            true
        },
        None => {
            let ghost i = choose|i: int| 0 <= i < 8 && !text::is_hex(#[trigger] v@[i]);
            assert(!text::is_hex(s@[i]));
            false
        },
    }
}

/// The first of the words that begins with "id=", without that prefix.
pub open spec fn first_id(ws: Seq<Seq<char>>) -> Option<Seq<char>>
    decreases ws.len(),
{
    if ws.len() == 0 {
        None
    } else if "id="@.is_prefix_of(ws[0]) {
        Some(ws[0].skip(3))
    } else {
        first_id(ws.drop_first())
    }
}

/// The identity in a header line.
pub open spec fn header_id(s: Seq<char>) -> Option<Seq<char>> {
    first_id(text::words(s))
}

/// Extracts ` id=...` from a header line.
pub fn parse_header_id(line: &str) -> (res: Option<String>)
    ensures
        graph::label_view(res) == header_id(line@),
{
    let ws = words_of(line);
    let ghost all = text::words(line@);
    let mut i: usize = 0;
    proof {
        reveal_strlit("id=");
        assert("id="@.len() == 3);
        assert(all.skip(0) =~= all);
    }
    while i < ws.len()
        invariant
            i <= ws@.len(),
            text::views(ws@) == all,
            "id="@.len() == 3,
            header_id(line@) == first_id(all.skip(i as int)),
        decreases ws@.len() - i,
    {
        assert(all.skip(i as int)[0] == ws@[i as int]@);
        assert(all.skip(i as int).drop_first() =~= all.skip(i + 1));
        if let Some(id) = after_prefix(ws[i].as_str(), "id=") {
            return Some(id);
        }
        i += 1;
    }
    None
}

/// A number of 32 bits in decimal digits, a plus sign before them or none.
pub open spec fn parse_version(s: Seq<char>) -> Option<u32> {
    let digits = if s.len() > 0 && s[0] == '+' {
        s.skip(1)
    } else {
        s
    };
    match text::parse_decimal(digits) {
        Some(n) => if n <= u32::MAX {
            Some(n as u32)
        } else {
            None
        },
        None => None,
    }
}

/// The format version in a header line.
pub open spec fn header_version(s: Seq<char>) -> Option<u32> {
    if "#psyrag-wal:v"@.is_prefix_of(s) {
        let ws = text::words(s.skip("#psyrag-wal:v"@.len() as int));
        if ws.len() > 0 {
            parse_version(ws[0])
        } else {
            None
        }
    } else {
        None
    }
}

/// Extracts the format version from a `#psyrag-wal:vN ...` header line.
pub fn parse_header_version(line: &str) -> (res: Option<u32>)
    ensures
        res == header_version(line@),
{
    match after_prefix(line, "#psyrag-wal:v") {
        Some(rest) => {
            let ws = words_of(rest.as_str());
            if ws.len() == 0 {
                return None;
            }
            assert(text::views(ws@)[0] == ws@[0]@);
            let v = chars_of(ws[0].as_str());
            let from: usize = if v.len() > 0 && v[0] == '+' {
                1
            } else {
                0
            };
            assert(v@.skip(0) =~= v@);
            match read_decimal(&v, from, u32::MAX as u64) {
                Some(n) => Some(n as u32),
                None => None,
            }
        },
        None => None,
    }
}

/// Why a log cannot be replayed.
#[derive(Debug)]
pub enum ReplayError {
    /// A record that cannot be read is followed by more data.
    Corrupt { line: usize, error: String },
    /// The format is newer than can be read.
    Newer { version: u32 },
    /// No ids are left for a record.
    Full,
    /// A line of a log that is only looked at is no text.
    NoText,
}

/// The mathematical form of a [`ReplayError`].
pub enum ReplayErrorV {
    Corrupt { line: nat, error: Seq<char> },
    Newer { version: u32 },
    Full,
    NoText,
}

impl View for ReplayError {
    type V = ReplayErrorV;

    open spec fn view(&self) -> ReplayErrorV {
        match *self {
            ReplayError::Corrupt { line, error } => ReplayErrorV::Corrupt {
                line: line as nat,
                error: error@,
            },
            ReplayError::Newer { version } => ReplayErrorV::Newer { version },
            ReplayError::Full => ReplayErrorV::Full,
            ReplayError::NoText => ReplayErrorV::NoText,
        }
    }
}

impl ReplayErrorV {
    /// The message for a log at `path`.
    pub open spec fn message(self, path: Seq<char>) -> Seq<char> {
        match self {
            ReplayErrorV::Corrupt { line, error } => "WAL "@ + path + " corrupted at line "@
                + text::decimal(line) + ": "@ + error
                + ". Replay stopped; restore from backup or repair the file (a torn final line would have been recovered automatically)."@,
            ReplayErrorV::Newer { version } => "WAL "@ + path + " is format v"@ + text::decimal(
                version as nat,
            )
                + ", newer than this binary understands                                      (max v1) — upgrade psyrag or restore the                                      pre-upgrade backup"@,
            ReplayErrorV::Full => "WAL "@ + path + ": graph is full: no ids are left"@,
            ReplayErrorV::NoText => no_text(),
        }
    }
}

impl ReplayError {
    /// The message for a log at `path`.
    pub fn message(&self, path: &str) -> (res: String)
        ensures
            res@ == self@.message(path@),
    {
        let mut s = "WAL ".to_owned();
        s.append(path);
        match self {
            ReplayError::Corrupt { line, error } => {
                s.append(" corrupted at line ");
                s.append(decimal_text(*line as u64).as_str());
                s.append(": ");
                s.append(error.as_str());
                s.append(
                    ". Replay stopped; restore from backup or repair the file (a torn final line would have been recovered automatically).",
                );
            },
            ReplayError::Newer { version } => {
                s.append(" is format v");
                s.append(decimal_text(*version as u64).as_str());
                s.append(
                    ", newer than this binary understands                                      (max v1) — upgrade psyrag or restore the                                      pre-upgrade backup",
                );
            },
            ReplayError::Full => {
                s.append(": graph is full: no ids are left");
            },
            ReplayError::NoText => {
                return "stream did not contain valid UTF-8".to_owned();
            },
        }
        assert(s@ =~= self@.message(path@));
        s
    }
}

/// A record that could not be read.
pub struct BadV {
    /// Where its line begins, in bytes.
    pub offset: nat,
    pub line: nat,
    pub error: Seq<char>,
}

/// A replay under way.
pub struct ReplayV {
    pub graph: GraphV,
    /// Mutations replayed.
    pub lsn: nat,
    pub wal_id: Option<Seq<char>>,
    /// The last line, where it could not be read.
    pub bad: Option<BadV>,
    /// The last line that was read lacks its line feed.
    pub needs_newline: bool,
    pub empty: bool,
    pub offset: nat,
    pub line: nat,
}

impl ReplayV {
    pub open spec fn start() -> ReplayV {
        ReplayV {
            graph: GraphV::empty(),
            lsn: 0,
            wal_id: None,
            bad: None,
            needs_newline: false,
            empty: true,
            offset: 0,
            line: 0,
        }
    }
}

/// A line without the carriage returns at its end.
pub open spec fn without_crs(s: Seq<char>) -> Seq<char>
    decreases s.len(),
{
    if s.len() > 0 && s.last() == '\r' {
        without_crs(s.drop_last())
    } else {
        s
    }
}

/// The replay after one more line, which ends in a line feed or is the last.
pub open spec fn feed(st: ReplayV, piece: Seq<char>, terminated: bool) -> Result<
    ReplayV,
    ReplayErrorV,
> {
    let content = without_crs(piece);
    let moved = ReplayV {
        empty: false,
        offset: st.offset + text::utf8_len(piece) + if terminated {
            1nat
        } else {
            0nat
        },
        line: st.line + 1,
        ..st
    };
    if records::is_blank(content) {
        Ok(moved)
    } else if st.bad is Some {
        Err(ReplayErrorV::Corrupt { line: st.bad->0.line, error: st.bad->0.error })
    } else {
        match parsed_line(content) {
            Ok(ParsedV::Header) => {
                let version = header_version(content);
                if version is Some && version->0 > WAL_VERSION_MAX {
                    Err(ReplayErrorV::Newer { version: version->0 })
                } else {
                    Ok(
                        ReplayV {
                            wal_id: if st.wal_id is None {
                                header_id(content)
                            } else {
                                st.wal_id
                            },
                            needs_newline: !terminated,
                            ..moved
                        },
                    )
                }
            },
            Ok(ParsedV::Record(op)) => {
                if st.graph.accepts(op) {
                    Ok(
                        ReplayV {
                            graph: st.graph.apply(op),
                            lsn: st.lsn + 1,
                            needs_newline: !terminated,
                            ..moved
                        },
                    )
                } else {
                    Err(ReplayErrorV::Full)
                }
            },
            Err(e) => Ok(
                ReplayV {
                    bad: Some(BadV { offset: st.offset, line: st.line + 1, error: e }),
                    needs_newline: false,
                    ..moved
                },
            ),
        }
    }
}

/// The replay of lines that end in a line feed.
pub open spec fn feed_all(pieces: Seq<Seq<char>>) -> Result<ReplayV, ReplayErrorV>
    decreases pieces.len(),
{
    if pieces.len() == 0 {
        Ok(ReplayV::start())
    } else {
        match feed_all(pieces.drop_last()) {
            Ok(st) => feed(st, pieces.last(), true),
            Err(e) => Err(e),
        }
    }
}

/// The replay of a log.
pub open spec fn replay(log: Seq<char>) -> Result<ReplayV, ReplayErrorV> {
    let pieces = text::split_char(log, '\n');
    match feed_all(pieces.drop_last()) {
        Ok(st) => if pieces.last().len() == 0 {
            Ok(st)
        } else {
            feed(st, pieces.last(), false)
        },
        Err(e) => Err(e),
    }
}

/// What is wrong with a line that is no text.
pub open spec fn no_text() -> Seq<char> {
    "stream did not contain valid UTF-8"@
}

/// The replay after one more line of so many bytes that is no text.
pub open spec fn spoiled(st: ReplayV, len: nat, terminated: bool) -> Result<ReplayV, ReplayErrorV> {
    if st.bad is Some {
        Err(ReplayErrorV::Corrupt { line: st.bad->0.line, error: st.bad->0.error })
    } else {
        Ok(
            ReplayV {
                bad: Some(BadV { offset: st.offset, line: st.line + 1, error: no_text() }),
                needs_newline: false,
                empty: false,
                offset: st.offset + len + if terminated {
                    1nat
                } else {
                    0nat
                },
                line: st.line + 1,
                ..st
            },
        )
    }
}

/// The replay after one more line of bytes. A line that is no text cannot be
/// read.
pub open spec fn feed_bytes(st: ReplayV, piece: Seq<u8>, terminated: bool) -> Result<
    ReplayV,
    ReplayErrorV,
> {
    match bytes::as_text(piece) {
        Some(t) => feed(st, t, terminated),
        None => spoiled(st, piece.len(), terminated),
    }
}

/// The replay of lines of bytes that end in a line feed.
pub open spec fn feed_all_bytes(pieces: Seq<Seq<u8>>) -> Result<ReplayV, ReplayErrorV>
    decreases pieces.len(),
{
    if pieces.len() == 0 {
        Ok(ReplayV::start())
    } else {
        match feed_all_bytes(pieces.drop_last()) {
            Ok(st) => feed_bytes(st, pieces.last(), true),
            Err(e) => Err(e),
        }
    }
}

/// The replay of a log as it stands in a file.
pub open spec fn replay_bytes(log: Seq<u8>) -> Result<ReplayV, ReplayErrorV> {
    let pieces = bytes::lines(log);
    match feed_all_bytes(pieces.drop_last()) {
        Ok(st) => if pieces.last().len() == 0 {
            Ok(st)
        } else {
            feed_bytes(st, pieces.last(), false)
        },
        Err(e) => Err(e),
    }
}

proof fn lemma_feed_encoded(cs: Seq<Seq<char>>)
    ensures
        feed_all_bytes(cs.map_values(bytes::encoded())) == feed_all(cs),
    decreases cs.len(),
{
    let bs = cs.map_values(bytes::encoded());
    if cs.len() > 0 {
        lemma_feed_encoded(cs.drop_last());
        assert(bs.drop_last() =~= cs.drop_last().map_values(bytes::encoded()));
        bytes::lemma_encoded_text(cs.last());
    }
}

/// A log that is text is replayed as that text.
pub proof fn text_is_replayed_as_text(log: Seq<char>)
    ensures
        replay_bytes(utf8::encode_utf8(log)) == replay(log),
{
    let cs = text::split_char(log, '\n');
    bytes::lemma_lines_encoded(log);
    text::lemma_split_nonempty(log, text::equals('\n'));
    let bs = cs.map_values(bytes::encoded());
    assert(bs.drop_last() =~= cs.drop_last().map_values(bytes::encoded()));
    lemma_feed_encoded(cs.drop_last());
    bytes::lemma_encoded_text(cs.last());
    if utf8::encode_utf8(cs.last()).len() == 0 {
        bytes::lemma_encoded_text(Seq::empty());
        assert(utf8::encode_utf8(Seq::<char>::empty()) =~= utf8::encode_utf8(cs.last()));
    } else if cs.last().len() == 0 {
        assert(utf8::encode_utf8(cs.last()) =~= Seq::empty());
    }
}

/// A record that could not be read.
#[derive(Debug)]
pub struct Bad {
    pub offset: usize,
    pub line: usize,
    pub error: String,
}

/// A replay under way.
pub struct Replay {
    pub graph: TemporalGraph,
    pub lsn: u64,
    pub wal_id: Option<String>,
    pub bad: Option<Bad>,
    pub needs_newline: bool,
    pub empty: bool,
    pub offset: usize,
    pub line: usize,
}

impl View for Bad {
    type V = BadV;

    open spec fn view(&self) -> BadV {
        BadV { offset: self.offset as nat, line: self.line as nat, error: self.error@ }
    }
}

impl View for Replay {
    type V = ReplayV;

    open spec fn view(&self) -> ReplayV {
        ReplayV {
            graph: self.graph@,
            lsn: self.lsn as nat,
            wal_id: graph::label_view(self.wal_id),
            bad: match self.bad {
                Some(b) => Some(b@),
                None => None,
            },
            needs_newline: self.needs_newline,
            empty: self.empty,
            offset: self.offset as nat,
            line: self.line as nat,
        }
    }
}

fn strip_crs(s: &str) -> (res: String)
    ensures
        res@ == without_crs(s@),
{
    let v = chars_of(s);
    let mut n: usize = v.len();
    assert(v@.take(n as int) =~= v@);
    while n > 0 && v[n - 1] == '\r'
        invariant
            n <= v@.len(),
            without_crs(v@) == without_crs(v@.take(n as int)),
        decreases n,
    {
        assert(v@.take(n as int).drop_last() =~= v@.take(n - 1));
        n -= 1;
    }
    assert(v@.subrange(0, n as int) =~= v@.take(n as int));
    text_of(&v, 0, n)
}

impl Replay {
    pub open spec fn wf(&self) -> bool {
        self.graph.wf() && self.lsn <= self.line
    }

    fn start() -> (res: Self)
        ensures
            res.wf(),
            res@ == ReplayV::start(),
    {
        Replay {
            graph: TemporalGraph::new(),
            lsn: 0,
            wal_id: None,
            bad: None,
            needs_newline: false,
            empty: true,
            offset: 0,
            line: 0,
        }
    }

    /// Takes one more line.
    fn feed(&mut self, piece: &str, terminated: bool) -> (res: Result<(), ReplayError>)
        requires
            old(self).wf(),
            old(self).offset + text::utf8_len(piece@) + (if terminated {
                1int
            } else {
                0
            }) <= usize::MAX,
            old(self).line < usize::MAX,
        ensures
            match res {
                Ok(_) => final(self).wf() && feed(old(self)@, piece@, terminated) == Ok::<
                    ReplayV,
                    ReplayErrorV,
                >(final(self)@),
                Err(e) => feed(old(self)@, piece@, terminated) == Err::<ReplayV, ReplayErrorV>(e@),
            },
            old(self).bad is None ==> reads_back(piece@),
    {
        proof {
            assert forall|op: OpV| piece@ == #[trigger] record_text(op) && codec::op_exact(
                op,
            ) implies !records::is_blank(without_crs(piece@)) && without_crs(piece@) == piece@ by {
                lemma_record_shape(op);
            }
        }
        let content = strip_crs(piece);
        let start: usize = self.offset;
        let len: usize = byte_len(piece);
        self.offset = if terminated {
            start + len + 1
        } else {
            start + len
        };
        self.line = self.line + 1;
        self.empty = false;
        if blank(content.as_str()) {
            return Ok(());
        }
        if let Some(b) = &self.bad {
            return Err(ReplayError::Corrupt { line: b.line, error: b.error.clone() });
        }
        self.needs_newline = false;
        match parse_line(content.as_str()) {
            Ok(Parsed::Header) => {
                if let Some(v) = parse_header_version(content.as_str()) {
                    if v > WAL_VERSION_MAX {
                        return Err(ReplayError::Newer { version: v });
                    }
                }
                if self.wal_id.is_none() {
                    self.wal_id = parse_header_id(content.as_str());
                }
                self.needs_newline = !terminated;
                Ok(())
            },
            Ok(Parsed::Record(op)) => {
                if !self.graph.can_apply(&op) {
                    return Err(ReplayError::Full);
                }
                self.graph.apply(&op);
                self.lsn = self.lsn + 1;
                self.needs_newline = !terminated;
                Ok(())
            },
            Err(e) => {
                self.bad = Some(Bad { offset: start, line: self.line, error: e });
                Ok(())
            },
        }
    }
}

impl Replay {
    /// Takes one more line, of so many bytes, that is no text.
    fn spoil(&mut self, len: usize, terminated: bool) -> (res: Result<(), ReplayError>)
        requires
            old(self).wf(),
            old(self).offset + len + (if terminated {
                1int
            } else {
                0
            }) <= usize::MAX,
            old(self).line < usize::MAX,
        ensures
            match res {
                Ok(_) => final(self).wf() && spoiled(old(self)@, len as nat, terminated) == Ok::<
                    ReplayV,
                    ReplayErrorV,
                >(final(self)@),
                Err(e) => spoiled(old(self)@, len as nat, terminated) == Err::<
                    ReplayV,
                    ReplayErrorV,
                >(e@),
            },
    {
        if let Some(b) = &self.bad {
            return Err(ReplayError::Corrupt { line: b.line, error: b.error.clone() });
        }
        let start: usize = self.offset;
        self.offset = if terminated {
            start + len + 1
        } else {
            start + len
        };
        self.line = self.line + 1;
        self.empty = false;
        self.needs_newline = false;
        self.bad = Some(
            Bad {
                offset: start,
                line: self.line,
                error: "stream did not contain valid UTF-8".to_owned(),
            },
        );
        Ok(())
    }

    /// Takes one more line of bytes.
    fn feed_bytes(&mut self, piece: &Vec<u8>, terminated: bool) -> (res: Result<(), ReplayError>)
        requires
            old(self).wf(),
            old(self).offset + piece@.len() + (if terminated {
                1int
            } else {
                0
            }) <= usize::MAX,
            old(self).line < usize::MAX,
        ensures
            match res {
                Ok(_) => final(self).wf() && feed_bytes(old(self)@, piece@, terminated) == Ok::<
                    ReplayV,
                    ReplayErrorV,
                >(final(self)@),
                Err(e) => feed_bytes(old(self)@, piece@, terminated) == Err::<
                    ReplayV,
                    ReplayErrorV,
                >(e@),
            },
            old(self).bad is None ==> (bytes::as_text(piece@) matches Some(t) ==> reads_back(t)),
    {
        match text_of_bytes(piece) {
            Some(t) => {
                proof {
                    utf8::decode_utf8_encode_utf8(piece@);
                }
                self.feed(t.as_str(), terminated)
            },
            None => self.spoil(piece.len(), terminated),
        }
    }
}

/// Where a line is a record that was written for a mutation, it reads as that
/// mutation.
pub open spec fn reads_back(piece: Seq<char>) -> bool {
    forall|op: OpV|
        piece == #[trigger] record_text(op) && codec::op_exact(op) ==> parsed_line(piece) == Ok::<
            ParsedV,
            Seq<char>,
        >(ParsedV::Record(op))
}

/// A log in which no line is half written and the last one is ended.
pub open spec fn is_sound(log: Seq<char>) -> bool {
    &&& log.len() == 0 || log.last() == '\n'
    &&& replay(log) matches Ok(st) && st.bad is None
}

/// The lines of a text that ends in a line feed, or is empty, and of that text
/// with one more line.
pub proof fn lemma_split_line(a: Seq<char>, line: Seq<char>)
    requires
        a.len() == 0 || a.last() == '\n',
        json::one_line(line),
    ensures
        text::split_char(a, '\n').last().len() == 0,
        text::split_char(a + line + seq!['\n'], '\n') == text::split_char(
            a,
            '\n',
        ).drop_last().push(line).push(Seq::empty()),
{
    let sep = text::equals('\n');
    let ps = text::split_char(a, '\n');
    text::lemma_split_nonempty(a, sep);
    assert(ps.last() =~= Seq::empty());
    text::lemma_split_extend(a, line, sep);
    let b = a + line;
    assert((a + line + seq!['\n']).drop_last() =~= b);
    assert((a + line + seq!['\n']).last() == '\n');
    assert(ps.last() + line =~= line);
}

/// Appending the record of a mutation to a sound log appends the mutation to
/// what the log replays to.
pub proof fn lemma_append(log: Seq<char>, op: OpV)
    requires
        is_sound(log),
        codec::op_exact(op),
        reads_back(record_text(op)),
        replay(log)->Ok_0.graph.accepts(op),
    ensures
        appended(log, op, log + record_text(op) + seq!['\n']),
{
    let line = record_text(op);
    lemma_record_shape(op);
    lemma_split_line(log, line);
    let before = text::split_char(log, '\n').drop_last();
    let after = text::split_char(log + line + seq!['\n'], '\n');
    assert(after.drop_last() =~= before.push(line));
    assert(before.push(line).drop_last() =~= before);
}

/// Whether the line at `j` is known to read back, unless the replay stopped
/// before it.
spec fn line_known(whole: Seq<Seq<char>>, j: int) -> bool {
    (feed_all(whole.take(j)) matches Ok(st) && st.bad is None) ==> reads_back(whole[j])
}

/// Whether the line of bytes at `j`, if it is text, is known to read back, unless
/// the replay stopped before it.
spec fn bytes_known(whole: Seq<Seq<u8>>, j: int) -> bool {
    (feed_all_bytes(whole.take(j)) matches Ok(st) && st.bad is None) ==> (bytes::as_text(
        whole[j],
    ) matches Some(t) ==> reads_back(t))
}

pub(crate) proof fn lemma_bytes_fail(ps: Seq<Seq<u8>>, k: int)
    requires
        0 <= k <= ps.len(),
        feed_all_bytes(ps.take(k)) is Err,
    ensures
        feed_all_bytes(ps) == feed_all_bytes(ps.take(k)),
    decreases ps.len() - k,
{
    if k == ps.len() {
        assert(ps.take(k) =~= ps);
    } else {
        assert(ps.drop_last().take(k) =~= ps.take(k));
        lemma_bytes_fail(ps.drop_last(), k);
    }
}

/// Where a replay stands after whole lines.
pub(crate) proof fn lemma_bytes_position(ps: Seq<Seq<u8>>)
    ensures
        feed_all_bytes(ps) matches Ok(st) ==> st.offset == bytes::lines_size(ps) && st.line
            == ps.len(),
    decreases ps.len(),
{
    if ps.len() > 0 {
        lemma_bytes_position(ps.drop_last());
        if utf8::valid_utf8(ps.last()) {
            utf8::decode_utf8_encode_utf8(ps.last());
        }
    }
}

/// Behind a line that ends a replay nothing more is read.
proof fn lemma_known_after_failure(whole: Seq<Seq<u8>>, i: int)
    requires
        0 <= i < whole.len(),
        feed_all_bytes(whole.take(i + 1)) is Err,
        forall|j: int| 0 <= j <= i ==> #[trigger] bytes_known(whole, j),
    ensures
        feed_all_bytes(whole) == feed_all_bytes(whole.take(i + 1)),
        forall|j: int| 0 <= j < whole.len() ==> #[trigger] bytes_known(whole, j),
{
    lemma_bytes_fail(whole, i + 1);
    assert forall|j: int| 0 <= j < whole.len() implies #[trigger] bytes_known(whole, j) by {
        if j > i {
            assert(whole.take(j).take(i + 1) =~= whole.take(i + 1));
            lemma_bytes_fail(whole.take(j), i + 1);
        }
    }
}

/// Feeds the lines that end in a line feed.
#[verifier::rlimit(40)]
#[verifier::spinoff_prover]
fn feed_lines(pieces: &Vec<Vec<u8>>, total: usize) -> (res: Result<Replay, ReplayError>)
    requires
        pieces@.len() >= 1,
        bytes::lines_size(bytes::byte_views(pieces@)) == total + 1,
    ensures
        ({
            let whole = bytes::byte_views(pieces@).drop_last();
            &&& match res {
                Ok(r) => r.wf() && feed_all_bytes(whole) == Ok::<ReplayV, ReplayErrorV>(r@),
                Err(e) => feed_all_bytes(whole) == Err::<ReplayV, ReplayErrorV>(e@),
            }
            &&& forall|j: int| 0 <= j < whole.len() ==> #[trigger] bytes_known(whole, j)
        }),
{
    let ghost ps = bytes::byte_views(pieces@);
    let ghost whole = ps.drop_last();
    let n: usize = pieces.len();
    let mut st = Replay::start();
    let mut i: usize = 0;
    assert(whole.take(0) =~= Seq::empty());
    while i + 1 < n
        invariant
            n == pieces@.len(),
            n >= 1,
            i < n,
            ps == bytes::byte_views(pieces@),
            whole == ps.drop_last(),
            bytes::lines_size(ps) == total + 1,
            st.wf(),
            feed_all_bytes(whole.take(i as int)) == Ok::<ReplayV, ReplayErrorV>(st@),
            forall|j: int| 0 <= j < i ==> #[trigger] bytes_known(whole, j),
        decreases n - i,
    {
        proof {
            assert(ps[i as int] == pieces@[i as int]@);
            assert(whole[i as int] == ps[i as int]);
            assert(whole.take(i + 1).drop_last() =~= whole.take(i as int));
            lemma_bytes_position(whole.take(i as int));
            bytes::lemma_size_prefix(whole, i as int);
        }
        match st.feed_bytes(&pieces[i], true) {
            Ok(_) => {
                assert(bytes_known(whole, i as int));
            },
            Err(e) => {
                proof {
                    assert(bytes_known(whole, i as int));
                    lemma_known_after_failure(whole, i as int);
                }
                return Err(e);
            },
        }
        i += 1;
    }
    assert(whole.take(n - 1) =~= whole);
    Ok(st)
}

/// Records as they stand in the log.
pub open spec fn records_text(ops: Seq<OpV>) -> Seq<char>
    decreases ops.len(),
{
    if ops.len() == 0 {
        Seq::empty()
    } else {
        records_text(ops.drop_last()) + record_text(ops.last()) + seq!['\n']
    }
}

pub open spec fn all_exact(ops: Seq<OpV>) -> bool {
    forall|i: int| 0 <= i < ops.len() ==> codec::op_exact(#[trigger] ops[i])
}

/// `log` replays to what `before` replays to, with the mutations after it.
pub open spec fn continued(before: Seq<char>, ops: Seq<OpV>, log: Seq<char>) -> bool {
    &&& is_sound(log)
    &&& replay(log)->Ok_0.graph == replay(before)->Ok_0.graph.apply_all(ops)
    &&& replay(log)->Ok_0.lsn == replay(before)->Ok_0.lsn + ops.len()
    &&& replay(log)->Ok_0.wal_id == replay(before)->Ok_0.wal_id
}

pub open spec fn record_of_op() -> spec_fn(OpV) -> Seq<char> {
    |op: OpV| record_text(op)
}

proof fn lemma_split_none(before: Seq<char>)
    requires
        before.len() == 0 || before.last() == '\n',
    ensures
        text::split_char(before, '\n') == text::split_char(before, '\n').drop_last().push(
            Seq::empty(),
        ),
{
    lemma_split_line(before, Seq::empty());
    text::lemma_split_nonempty(before, text::equals('\n'));
    assert(text::split_char(before, '\n').last() =~= Seq::empty());
}

/// The lines of a log with records after it.
#[verifier::rlimit(30)]
proof fn lemma_split_records(before: Seq<char>, ops: Seq<OpV>)
    requires
        before.len() == 0 || before.last() == '\n',
        all_exact(ops),
    ensures
        ({
            let log = before + records_text(ops);
            &&& log.len() == 0 || log.last() == '\n'
            &&& text::split_char(log, '\n') == (text::split_char(before, '\n').drop_last()
                + ops.map_values(record_of_op())).push(Seq::empty())
        }),
    decreases ops.len(),
{
    let ps = text::split_char(before, '\n').drop_last();
    if ops.len() == 0 {
        assert(before + records_text(ops) =~= before);
        lemma_split_none(before);
        assert(ps + ops.map_values(record_of_op()) =~= ps);
    } else {
        let front = ops.drop_last();
        let text = record_text(ops.last());
        assert forall|i: int| 0 <= i < front.len() implies codec::op_exact(#[trigger] front[i]) by {
            assert(codec::op_exact(ops[i]));
        }
        lemma_split_records(before, front);
        assert(codec::op_exact(ops[ops.len() - 1]));
        lemma_record_shape(ops.last());
        let mid = before + records_text(front);
        let earlier = text::split_char(mid, '\n').drop_last();
        lemma_split_line(mid, text);
        assert(before + records_text(ops) =~= mid + text + seq!['\n']);
        assert(earlier =~= ps + front.map_values(record_of_op()));
        assert(earlier.push(text) =~= ps + ops.map_values(record_of_op())) by {
            assert(ops.map_values(record_of_op()) =~= front.map_values(record_of_op()).push(text));
        }
    }
}

/// Records after a sound log, each known to read back.
proof fn lemma_append_all(before: Seq<char>, ops: Seq<OpV>, whole: Seq<Seq<char>>)
    requires
        is_sound(before),
        all_exact(ops),
        snapshot::run(replay(before)->Ok_0.graph, ops).1,
        ({
            let ps = text::split_char(before, '\n').drop_last();
            &&& ps.len() + ops.len() <= whole.len()
            &&& whole.take((ps.len() + ops.len()) as int) == ps + ops.map_values(record_of_op())
        }),
        forall|j: int| 0 <= j < whole.len() ==> #[trigger] line_known(whole, j),
    ensures
        continued(before, ops, before + records_text(ops)),
        snapshot::run(replay(before)->Ok_0.graph, ops).0 == replay(
            before,
        )->Ok_0.graph.apply_all(ops),
    decreases ops.len(),
{
    let ps = text::split_char(before, '\n').drop_last();
    if ops.len() == 0 {
        assert(before + records_text(ops) =~= before);
    } else {
        let front = ops.drop_last();
        let n = (ps.len() + front.len()) as int;
        let all = ps + ops.map_values(record_of_op());
        assert forall|i: int| 0 <= i < front.len() implies codec::op_exact(#[trigger] front[i]) by {
            assert(codec::op_exact(ops[i]));
        }
        assert(codec::op_exact(ops[ops.len() - 1]));
        assert(whole.take(n) =~= all.take(n));
        assert(all.take(n) =~= ps + front.map_values(record_of_op()));
        assert(all[n] == record_text(ops.last()));
        assert(whole[n] == whole.take((n + 1) as int)[n]);
        lemma_append_all(before, front, whole);
        let mid = before + records_text(front);
        lemma_split_records(before, front);
        text::lemma_split_nonempty(mid, text::equals('\n'));
        assert(text::split_char(mid, '\n').drop_last() =~= whole.take(n));
        assert(line_known(whole, n));
        lemma_append(mid, ops.last());
        assert(before + records_text(ops) =~= mid + record_text(ops.last()) + seq!['\n']);
    }
}

/// Replays a log. Records that were written for mutations read as those
/// mutations: a sound log with records after it replays to what the log
/// replays to, with the mutations after it.
pub fn replay_log(log: &[u8]) -> (res: Result<Replay, ReplayError>)
    ensures
        match res {
            Ok(r) => r.wf() && replay_bytes(log@) == Ok::<ReplayV, ReplayErrorV>(r@),
            Err(e) => replay_bytes(log@) == Err::<ReplayV, ReplayErrorV>(e@),
        },
        forall|before: Seq<char>, ops: Seq<OpV>|
            #![trigger is_sound(before), records_text(ops)]
            log@ == utf8::encode_utf8(before + records_text(ops)) && is_sound(before)
                && all_exact(ops) && snapshot::run(replay(before)->Ok_0.graph, ops).1 ==> continued(
                before,
                ops,
                before + records_text(ops),
            ),
{
    let pieces = lines_of_bytes(log);
    let ghost ps = bytes::lines(log@);
    let ghost whole = ps.drop_last();
    proof {
        bytes::lemma_lines_nonempty(log@);
    }
    let n: usize = pieces.len();
    let fed = feed_lines(&pieces, log.len());
    proof {
        assert forall|before: Seq<char>, ops: Seq<OpV>|
            #![trigger is_sound(before), records_text(ops)]
            log@ == utf8::encode_utf8(before + records_text(ops)) && is_sound(before) && all_exact(
                ops,
            ) && snapshot::run(replay(before)->Ok_0.graph, ops).1 implies continued(
            before,
            ops,
            before + records_text(ops),
        ) by {
            lemma_records_replay(before, ops, log@);
        }
        lemma_bytes_position(whole);
        assert(ps.last() == pieces@[n - 1]@);
    }
    let mut st = match fed {
        Ok(st) => st,
        Err(e) => {
            return Err(e);
        },
    };
    if pieces[n - 1].len() > 0 {
        match st.feed_bytes(&pieces[n - 1], false) {
            Ok(_) => {},
            Err(e) => {
                return Err(e);
            },
        }
    }
    Ok(st)
}

proof fn lemma_records_replay(before: Seq<char>, ops: Seq<OpV>, log: Seq<u8>)
    requires
        log == utf8::encode_utf8(before + records_text(ops)),
        is_sound(before),
        all_exact(ops),
        snapshot::run(replay(before)->Ok_0.graph, ops).1,
        forall|j: int|
            0 <= j < bytes::lines(log).drop_last().len() ==> #[trigger] bytes_known(
                bytes::lines(log).drop_last(),
                j,
            ),
    ensures
        continued(before, ops, before + records_text(ops)),
{
    let l = before + records_text(ops);
    let f = bytes::encoded();
    let cs = text::split_char(l, '\n');
    let whole = bytes::lines(log).drop_last();
    let cwhole = cs.drop_last();
    text::lemma_split_nonempty(l, text::equals('\n'));
    bytes::lemma_lines_encoded(l);
    assert(whole =~= cwhole.map_values(f));
    lemma_split_records(before, ops);
    let earlier = text::split_char(before, '\n').drop_last();
    assert(cwhole =~= earlier + ops.map_values(record_of_op()));
    assert(cwhole.take((earlier.len() + ops.len()) as int) =~= cwhole);
    assert forall|j: int| 0 <= j < cwhole.len() implies #[trigger] line_known(cwhole, j) by {
        assert(bytes_known(whole, j));
        assert(whole.take(j) =~= cwhole.take(j).map_values(f));
        lemma_feed_encoded(cwhole.take(j));
        bytes::lemma_encoded_text(cwhole[j]);
    }
    lemma_append_all(before, ops, cwhole);
}

/// `log` replays to what `before` replays to, with one mutation more.
pub open spec fn appended(before: Seq<char>, op: OpV, log: Seq<char>) -> bool {
    &&& is_sound(log)
    &&& replay(log)->Ok_0.graph == replay(before)->Ok_0.graph.apply(op)
    &&& replay(log)->Ok_0.lsn == replay(before)->Ok_0.lsn + 1
    &&& replay(log)->Ok_0.wal_id == replay(before)->Ok_0.wal_id
}

/// What a look over a log found.
#[derive(Debug)]
pub struct VerifyReport {
    pub wal_id: Option<String>,
    pub records: usize,
    pub framed: usize,
    pub legacy: usize,
    /// The last record is half written.
    pub torn_tail: bool,
    /// The first line that cannot be read and is followed by more data, counted
    /// from one, and what is wrong with it.
    pub corrupt: Option<(usize, String)>,
}

/// The mathematical form of a [`VerifyReport`], and of one under way.
pub struct VerifyV {
    pub wal_id: Option<Seq<char>>,
    pub records: nat,
    pub framed: nat,
    pub legacy: nat,
    pub bad: Option<(nat, Seq<char>)>,
    pub corrupt: Option<(nat, Seq<char>)>,
}

pub open spec fn place_view(p: Option<(usize, String)>) -> Option<(nat, Seq<char>)> {
    match p {
        Some((n, e)) => Some((n as nat, e@)),
        None => None,
    }
}

impl VerifyReport {
    /// Whether the report says what `v` says.
    pub open spec fn shows(&self, v: VerifyV) -> bool {
        &&& graph::label_view(self.wal_id) == v.wal_id
        &&& self.records == v.records
        &&& self.framed == v.framed
        &&& self.legacy == v.legacy
        &&& self.torn_tail == (v.bad is Some)
        &&& place_view(self.corrupt) == v.corrupt
    }
}

/// What a line of bytes holds, or what is wrong with it.
pub open spec fn parsed_bytes(l: Seq<u8>) -> Result<ParsedV, Seq<char>> {
    match bytes::as_text(l) {
        Some(t) => parsed_line(without_crs(t)),
        None => Err(no_text()),
    }
}

/// A line of white space only.
pub open spec fn blank_bytes(l: Seq<u8>) -> bool {
    bytes::as_text(l) matches Some(t) && records::is_blank(t)
}

/// Whether a line has a checksum.
pub open spec fn counts_as_framed(l: Seq<u8>) -> bool {
    bytes::as_text(l) matches Some(t) && has_frame(without_crs(t))
}

/// The report after the lines of a log. A line that cannot be read is held
/// back until more data follows it, which ends the look.
pub open spec fn verified(ls: Seq<Seq<u8>>) -> VerifyV
    decreases ls.len(),
{
    if ls.len() == 0 {
        VerifyV { wal_id: None, records: 0, framed: 0, legacy: 0, bad: None, corrupt: None }
    } else {
        let st = verified(ls.drop_last());
        let l = ls.last();
        if st.corrupt is Some || blank_bytes(l) {
            st
        } else if st.bad is Some {
            VerifyV { corrupt: st.bad, bad: None, ..st }
        } else {
            match parsed_bytes(l) {
                Ok(ParsedV::Header) => VerifyV {
                    wal_id: if st.wal_id is None {
                        header_id(without_crs(bytes::as_text(l)->0))
                    } else {
                        st.wal_id
                    },
                    ..st
                },
                Ok(ParsedV::Record(_)) => if counts_as_framed(l) {
                    VerifyV { records: st.records + 1, framed: st.framed + 1, ..st }
                } else {
                    VerifyV { records: st.records + 1, legacy: st.legacy + 1, ..st }
                },
                Err(e) => VerifyV { bad: Some((ls.len(), e)), ..st },
            }
        }
    }
}

proof fn lemma_verified_stops(ls: Seq<Seq<u8>>, k: int)
    requires
        0 <= k <= ls.len(),
        verified(ls.take(k)).corrupt is Some,
    ensures
        verified(ls) == verified(ls.take(k)),
    decreases ls.len() - k,
{
    if k == ls.len() {
        assert(ls.take(k) =~= ls);
    } else {
        assert(ls.drop_last().take(k) =~= ls.take(k));
        lemma_verified_stops(ls.drop_last(), k);
    }
}

/// Looks over a log without repairing it. A half-written record at the end is
/// reported, not failed.
pub fn verify_wal(log: &[u8]) -> (res: VerifyReport)
    ensures
        res.shows(verified(bytes::lines(log@))),
{
    let ls = lines_of_bytes(log);
    let ghost all = bytes::lines(log@);
    let mut rep = VerifyReport {
        wal_id: None,
        records: 0,
        framed: 0,
        legacy: 0,
        torn_tail: false,
        corrupt: None,
    };
    let mut bad: Option<(usize, String)> = None;
    let mut i: usize = 0;
    assert(all.take(0) =~= Seq::empty());
    while i < ls.len()
        invariant
            i <= ls@.len(),
            bytes::byte_views(ls@) == all,
            all == bytes::lines(log@),
            !rep.torn_tail,
            rep.corrupt is None,
            ({
                let v = verified(all.take(i as int));
                &&& graph::label_view(rep.wal_id) == v.wal_id
                &&& rep.records == v.records
                &&& rep.framed == v.framed
                &&& rep.legacy == v.legacy
                &&& place_view(bad) == v.bad
                &&& v.corrupt is None
            }),
            rep.records <= i,
            rep.framed <= i,
            rep.legacy <= i,
        decreases ls@.len() - i,
    {
        proof {
            assert(all[i as int] == ls@[i as int]@);
            assert(all.take(i + 1).drop_last() =~= all.take(i as int));
            assert(all.take(i + 1).last() == ls@[i as int]@);
        }
        let line = text_of_bytes(&ls[i]);
        let empty = match &line {
            Some(t) => blank(t.as_str()),
            None => false,
        };
        if !empty {
            if bad.is_some() {
                proof {
                    lemma_verified_stops(all, i + 1);
                }
                rep.corrupt = bad;
                return rep;
            }
            match line {
                Some(t) => {
                    let content = strip_crs(t.as_str());
                    match parse_line(content.as_str()) {
                        Ok(Parsed::Header) => {
                            if rep.wal_id.is_none() {
                                rep.wal_id = parse_header_id(content.as_str());
                            }
                        },
                        Ok(Parsed::Record(_)) => {
                            rep.records = rep.records + 1;
                            if is_framed(content.as_str()) {
                                rep.framed = rep.framed + 1;
                            } else {
                                rep.legacy = rep.legacy + 1;
                            }
                        },
                        Err(e) => {
                            bad = Some((i + 1, e));
                        },
                    }
                },
                None => {
                    bad = Some((i + 1, "stream did not contain valid UTF-8".to_owned()));
                },
            }
        }
        i += 1;
    }
    assert(all.take(all.len() as int) =~= all);
    rep.torn_tail = bad.is_some();
    rep
}

/// Whether the last line with anything in it is no text.
pub open spec fn spoiled_end(ls: Seq<Seq<u8>>) -> bool
    decreases ls.len(),
{
    if ls.len() == 0 {
        false
    } else if blank_bytes(ls.last()) {
        spoiled_end(ls.drop_last())
    } else {
        bytes::as_text(ls.last()) is None
    }
}

/// The graph after those lines that are records. Lines that are none are passed
/// over, but a line that is no text stands at the end only.
pub open spec fn readable(ls: Seq<Seq<u8>>) -> Result<GraphV, ReplayErrorV>
    decreases ls.len(),
{
    if ls.len() == 0 {
        Ok(GraphV::empty())
    } else {
        match (readable(ls.drop_last()), spoiled_end(ls.drop_last())) {
            (Err(e), _) => Err(e),
            (Ok(g), bad) => if blank_bytes(ls.last()) {
                Ok(g)
            } else if bad {
                Err(ReplayErrorV::NoText)
            } else {
                match parsed_bytes(ls.last()) {
                    Ok(ParsedV::Record(op)) => if g.accepts(op) {
                        Ok(g.apply(op))
                    } else {
                        Err(ReplayErrorV::Full)
                    },
                    _ => Ok(g),
                }
            },
        }
    }
}

proof fn lemma_readable_fails(ls: Seq<Seq<u8>>, k: int)
    requires
        0 <= k <= ls.len(),
        readable(ls.take(k)) is Err,
    ensures
        readable(ls) == readable(ls.take(k)),
    decreases ls.len() - k,
{
    if k == ls.len() {
        assert(ls.take(k) =~= ls);
    } else {
        assert(ls.drop_last().take(k) =~= ls.take(k));
        lemma_readable_fails(ls.drop_last(), k);
    }
}

/// Replays the records of a log for inspection, passing over what cannot be
/// read.
pub fn replay_readonly(log: &[u8]) -> (res: Result<TemporalGraph, ReplayError>)
    ensures
        match res {
            Ok(g) => g.wf() && readable(bytes::lines(log@)) == Ok::<GraphV, ReplayErrorV>(g@),
            Err(e) => readable(bytes::lines(log@)) == Err::<GraphV, ReplayErrorV>(e@),
        },
{
    let ls = lines_of_bytes(log);
    let ghost all = bytes::lines(log@);
    let mut g = TemporalGraph::new();
    let mut bad = false;
    let mut i: usize = 0;
    assert(all.take(0) =~= Seq::empty());
    while i < ls.len()
        invariant
            i <= ls@.len(),
            bytes::byte_views(ls@) == all,
            all == bytes::lines(log@),
            g.wf(),
            readable(all.take(i as int)) == Ok::<GraphV, ReplayErrorV>(g@),
            bad == spoiled_end(all.take(i as int)),
        decreases ls@.len() - i,
    {
        proof {
            assert(all[i as int] == ls@[i as int]@);
            assert(all.take(i + 1).drop_last() =~= all.take(i as int));
            assert(all.take(i + 1).last() == ls@[i as int]@);
        }
        let text = text_of_bytes(&ls[i]);
        let empty = match &text {
            Some(t) => blank(t.as_str()),
            None => false,
        };
        if !empty {
            if bad {
                proof {
                    lemma_readable_fails(all, i + 1);
                }
                return Err(ReplayError::NoText);
            }
            match text {
                Some(t) => {
                    let content = strip_crs(t.as_str());
                    match parse_line(content.as_str()) {
                        Ok(Parsed::Record(op)) => {
                            if !g.can_apply(&op) {
                                proof {
                                    lemma_readable_fails(all, i + 1);
                                }
                                return Err(ReplayError::Full);
                            }
                            g.apply(&op);
                        },
                        _ => {},
                    }
                },
                None => {
                    bad = true;
                },
            }
        }
        i += 1;
    }
    assert(all.take(all.len() as int) =~= all);
    Ok(g)
}

} // verus!
