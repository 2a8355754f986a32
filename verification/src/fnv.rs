//! FNV-1a hashes of 64 bits, and identities made of them.

use crate::graph::TemporalGraph;
use crate::model::{EdgeId, GraphV};
use crate::text;
use crate::text::push_hex;
use vstd::prelude::*;
use vstd::utf8;

verus! {

pub const FNV_BASIS: u64 = 0xcbf2_9ce4_8422_2325;

pub const FNV_PRIME: u64 = 0x0000_0100_0000_01b3;

/// One byte of the hash.
pub open spec fn fnv_step(h: u64, b: u8) -> u64 {
    (((h ^ (b as u64)) * FNV_PRIME) % 0x1_0000_0000_0000_0000) as u64
}

/// The hash of bytes, from `h`.
pub open spec fn fnv_from(h: u64, data: Seq<u8>) -> u64
    decreases data.len(),
{
    if data.len() == 0 {
        h
    } else {
        fnv_step(fnv_from(h, data.drop_last()), data.last())
    }
}

/// The FNV-1a hash of bytes.
pub open spec fn fnv(data: Seq<u8>) -> u64 {
    fnv_from(FNV_BASIS, data)
}

/// The `n` low bytes of a number, lowest first.
pub open spec fn le_bytes(x: nat, n: nat) -> Seq<u8>
    decreases n,
{
    if n == 0 {
        Seq::empty()
    } else {
        seq![(x % 256) as u8] + le_bytes(x / 256, (n - 1) as nat)
    }
}

pub proof fn lemma_fnv_concat(h: u64, a: Seq<u8>, b: Seq<u8>)
    ensures
        fnv_from(h, a + b) == fnv_from(fnv_from(h, a), b),
    decreases b.len(),
{
    if b.len() == 0 {
        assert(a + b =~= a);
    } else {
        assert((a + b).drop_last() =~= a + b.drop_last());
        lemma_fnv_concat(h, a, b.drop_last());
    }
}

fn step(h: u64, b: u8) -> (res: u64)
    ensures
        res == fnv_step(h, b),
{
    let x: u64 = h ^ b as u64;
    x.wrapping_mul(FNV_PRIME)
}

/// Goes on with the bytes of a slice.
fn add_bytes(h: u64, data: &[u8]) -> (res: u64)
    ensures
        res == fnv_from(h, data@),
{
    let mut r: u64 = h;
    let mut i: usize = 0;
    assert(data@.take(0) =~= Seq::empty());
    while i < data.len()
        invariant
            i <= data@.len(),
            r == fnv_from(h, data@.take(i as int)),
        decreases data@.len() - i,
    {
        assert(data@.take(i + 1).drop_last() =~= data@.take(i as int));
        assert(data@.take(i + 1).last() == data@[i as int]);
        r = step(r, data[i]);
        i += 1;
    }
    assert(data@.take(data@.len() as int) =~= data@);
    r
}

fn add_byte(h: u64, b: u8) -> (res: u64)
    ensures
        res == fnv_from(h, seq![b]),
{
    assert(seq![b].drop_last() =~= Seq::empty());
    assert(fnv_from(h, seq![b].drop_last()) == h);
    step(h, b)
}

/// Goes on with the `n` low bytes of a number.
fn add_number(h: u64, x: u128, n: usize) -> (res: u64)
    ensures
        res == fnv_from(h, le_bytes(x as nat, n as nat)),
    decreases n,
{
    if n == 0 {
        h
    } else {
        let b: u8 = (x % 256) as u8;
        let first = add_byte(h, b);
        proof {
            lemma_fnv_concat(h, seq![b], le_bytes((x / 256) as nat, (n - 1) as nat));
        }
        add_number(first, x / 256, n - 1)
    }
}

/// The identity of a new log: sixteen hexadecimal digits made of the time in
/// nanoseconds and the process number.
pub open spec fn log_identity(nanos: nat, pid: nat) -> Seq<char> {
    text::hex_padded(fnv(le_bytes(nanos, 16) + le_bytes(pid, 16)) as nat, 16)
}

/// The identity of a new log.
pub fn new_wal_id(nanos: u128, pid: u128) -> (res: String)
    ensures
        res@ == log_identity(nanos as nat, pid as nat),
{
    let a = add_number(FNV_BASIS, nanos, 16);
    let h = add_number(a, pid, 16);
    proof {
        lemma_fnv_concat(FNV_BASIS, le_bytes(nanos as nat, 16), le_bytes(pid as nat, 16));
    }
    let mut s = String::new();
    push_hex(&mut s, h, 16);
    assert(s@ =~= text::hex_padded(h as nat, 16));
    s
}

/// What identifies an edge across renumbering: its ends, its kind and when it
/// began. No text holds the byte 255, so the parts cannot run together.
pub open spec fn edge_identity(
    src: Seq<char>,
    dst: Seq<char>,
    kind: Seq<char>,
    valid_from: i64,
) -> Seq<u8> {
    utf8::encode_utf8(src) + seq![255u8] + utf8::encode_utf8(dst) + seq![255u8]
        + utf8::encode_utf8(kind) + seq![255u8] + le_bytes(
        (valid_from as int + 0x8000_0000_0000_0000) as nat,
        8,
    )
}

/// The stable key of an edge record.
pub open spec fn stable_key(g: GraphV, eid: EdgeId) -> u64 {
    let e = g.edges[eid as int];
    fnv(
        edge_identity(
            g.nodes[e.src as int].name,
            g.nodes[e.dst as int].name,
            g.kinds[e.kind_id as int],
            e.valid_from,
        ),
    )
}

/// The key of an edge that names and times determine, whatever its number.
pub fn stable_key_of(src: &str, dst: &str, kind: &str, valid_from: i64) -> (res: u64)
    ensures
        res == fnv(edge_identity(src@, dst@, kind@, valid_from)),
{
    let a = add_bytes(FNV_BASIS, src.as_bytes());
    let b = add_byte(a, 255);
    let c = add_bytes(b, dst.as_bytes());
    let d = add_byte(c, 255);
    let e = add_bytes(d, kind.as_bytes());
    let f = add_byte(e, 255);
    let t: u128 = (valid_from as i128 + 0x8000_0000_0000_0000) as u128;
    let res = add_number(f, t, 8);
    proof {
        let s1 = utf8::encode_utf8(src@);
        let s2 = s1 + seq![255u8];
        let s3 = s2 + utf8::encode_utf8(dst@);
        let s4 = s3 + seq![255u8];
        let s5 = s4 + utf8::encode_utf8(kind@);
        let s6 = s5 + seq![255u8];
        lemma_fnv_concat(FNV_BASIS, s1, seq![255u8]);
        lemma_fnv_concat(FNV_BASIS, s2, utf8::encode_utf8(dst@));
        lemma_fnv_concat(FNV_BASIS, s3, seq![255u8]);
        lemma_fnv_concat(FNV_BASIS, s4, utf8::encode_utf8(kind@));
        lemma_fnv_concat(FNV_BASIS, s5, seq![255u8]);
        lemma_fnv_concat(FNV_BASIS, s6, le_bytes(t as nat, 8));
    }
    res
}

/// The stable key of an edge record.
pub fn stable_edge_key(g: &TemporalGraph, eid: EdgeId) -> (res: u64)
    requires
        g.wf(),
        eid < g@.edges.len(),
    ensures
        res == stable_key(g@, eid),
{
    proof {
        g.lemma_wf();
        assert(g@.edges[eid as int].src < g@.nodes.len());
    }
    let e = *g.edge(eid);
    stable_key_of(g.node_name(e.src), g.node_name(e.dst), g.kind_str(e.kind_id), e.valid_from)
}

} // verus!
