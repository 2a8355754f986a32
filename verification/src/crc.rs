//! IEEE CRC32 (the zlib and PNG polynomial).

use vstd::prelude::*;

verus! {

/// One bit of the division, least significant bit first.
pub open spec fn crc_bit(c: u32) -> u32 {
    if c & 1 != 0 {
        0xEDB8_8320u32 ^ (c >> 1)
    } else {
        c >> 1
    }
}

pub open spec fn crc_bits(c: u32, n: nat) -> u32
    decreases n,
{
    if n == 0 {
        c
    } else {
        crc_bit(crc_bits(c, (n - 1) as nat))
    }
}

/// The register after one byte.
pub open spec fn crc_byte(c: u32, b: u8) -> u32 {
    crc_bits(c ^ b as u32, 8)
}

/// The register after a sequence of bytes, from all ones.
pub open spec fn crc_register(data: Seq<u8>) -> u32
    decreases data.len(),
{
    if data.len() == 0 {
        0xFFFF_FFFFu32
    } else {
        crc_byte(crc_register(data.drop_last()), data.last())
    }
}

/// The checksum: the register, inverted.
pub open spec fn checksum(data: Seq<u8>) -> u32 {
    crc_register(data) ^ 0xFFFF_FFFFu32
}

/// IEEE CRC32 of `data`.
pub fn crc32(data: &[u8]) -> (res: u32)
    ensures
        res == checksum(data@),
{
    let mut c: u32 = 0xFFFF_FFFF;
    let mut i: usize = 0;
    assert(data@.take(0) =~= Seq::empty());
    while i < data.len()
        invariant
            i <= data@.len(),
            c == crc_register(data@.take(i as int)),
        decreases data@.len() - i,
    {
        let b: u8 = data[i];
        let ghost before = c;
        c = c ^ b as u32;
        let ghost x = c;
        let mut k: u32 = 0;
        while k < 8
            invariant
                k <= 8,
                c == crc_bits(x, k as nat),
            decreases 8 - k,
        {
            c = if c & 1 != 0 {
                0xEDB8_8320 ^ (c >> 1)
            } else {
                c >> 1
            };
            k += 1;
        }
        proof {
            assert(data@.take(i + 1).drop_last() =~= data@.take(i as int));
            assert(data@.take(i + 1).last() == b);
        }
        i += 1;
    }
    assert(data@.take(data@.len() as int) =~= data@);
    c ^ 0xFFFF_FFFF
}

proof fn lemma_bit_injective(a: u32, b: u32)
    requires
        crc_bit(a) == crc_bit(b),
    ensures
        a == b,
{
    assert((if a & 1 != 0 { 0xEDB8_8320u32 ^ (a >> 1) } else { a >> 1 }) == (if b & 1 != 0 {
        0xEDB8_8320u32 ^ (b >> 1)
    } else {
        b >> 1
    }) ==> a == b) by (bit_vector);
}

proof fn lemma_bits_injective(a: u32, b: u32, n: nat)
    requires
        crc_bits(a, n) == crc_bits(b, n),
    ensures
        a == b,
    decreases n,
{
    if n > 0 {
        lemma_bit_injective(crc_bits(a, (n - 1) as nat), crc_bits(b, (n - 1) as nat));
        lemma_bits_injective(a, b, (n - 1) as nat);
    }
}

/// The same byte leads different registers to different registers.
proof fn lemma_byte_injective(a: u32, b: u32, x: u8)
    requires
        crc_byte(a, x) == crc_byte(b, x),
    ensures
        a == b,
{
    lemma_bits_injective(a ^ x as u32, b ^ x as u32, 8);
    let y = x as u32;
    assert(a ^ y == b ^ y ==> a == b) by (bit_vector);
}

/// Different bytes lead one register to different registers.
proof fn lemma_byte_distinguishes(a: u32, x: u8, y: u8)
    requires
        crc_byte(a, x) == crc_byte(a, y),
    ensures
        x == y,
{
    lemma_bits_injective(a ^ x as u32, a ^ y as u32, 8);
    assert(a ^ (x as u32) == a ^ (y as u32) ==> x == y) by (bit_vector);
}

proof fn lemma_register_differs(a: Seq<u8>, b: Seq<u8>, i: int)
    requires
        a.len() == b.len(),
        0 <= i < a.len(),
        a[i] != b[i],
        forall|j: int| 0 <= j < a.len() && j != i ==> a[j] == b[j],
    ensures
        crc_register(a) != crc_register(b),
    decreases a.len(),
{
    let x = a.drop_last();
    let y = b.drop_last();
    if i == a.len() - 1 {
        assert(x =~= y);
        if crc_register(a) == crc_register(b) {
            lemma_byte_distinguishes(crc_register(x), a.last(), b.last());
        }
    } else {
        lemma_register_differs(x, y, i);
        assert(a.last() == b.last());
        if crc_register(a) == crc_register(b) {
            lemma_byte_injective(crc_register(x), crc_register(y), a.last());
        }
    }
}

/// A change of one byte changes the checksum.
pub proof fn one_changed_byte_is_detected(a: Seq<u8>, i: int, x: u8)
    requires
        0 <= i < a.len(),
        a[i] != x,
    ensures
        checksum(a.update(i, x)) != checksum(a),
{
    let b = a.update(i, x);
    lemma_register_differs(a, b, i);
    let c = crc_register(a);
    let d = crc_register(b);
    assert(c ^ 0xFFFF_FFFFu32 == d ^ 0xFFFF_FFFFu32 ==> c == d) by (bit_vector);
}

} // verus!
