use vstd::prelude::*;

verus! {

/// The weight of bit `k` of a byte, counting from the most significant.
pub open spec fn bit_mask(k: int) -> u8 {
    if k == 0 {
        0x80
    } else if k == 1 {
        0x40
    } else if k == 2 {
        0x20
    } else if k == 3 {
        0x10
    } else if k == 4 {
        0x08
    } else if k == 5 {
        0x04
    } else if k == 6 {
        0x02
    } else if k == 7 {
        0x01
    } else {
        0
    }
}

/// The byte made of the first `k` of the eight bits that start at `start`,
/// most significant first; bits past the end count as zero.
pub open spec fn pack_byte(bits: Seq<bool>, start: int, k: int) -> u8
    decreases k,
{
    if k <= 0 {
        0
    } else {
        let i = start + k - 1;
        let m = if 0 <= i < bits.len() && bits[i] {
            bit_mask(k - 1)
        } else {
            0u8
        };
        pack_byte(bits, start, k - 1) | m
    }
}

/// Number of bytes that `n` bits take.
pub open spec fn byte_len(n: int) -> int {
    (n + 7) / 8
}

/// The bits packed into bytes, most significant bit first, the last byte
/// padded with zeros.
pub open spec fn packed(bits: Seq<bool>) -> Seq<u8> {
    Seq::new(byte_len(bits.len() as int) as nat, |j: int| pack_byte(bits, 8 * j, 8))
}

/// Bit `i` of a byte string, counting each byte from its most significant bit.
pub open spec fn bit_at(bytes: Seq<u8>, i: int) -> bool {
    bytes[i / 8] & bit_mask(i % 8) != 0
}

/// The first `n` bits of a byte string.
pub open spec fn unpacked(bytes: Seq<u8>, n: int) -> Seq<bool> {
    Seq::new(n as nat, |i: int| bit_at(bytes, i))
}

/// The mask of bit `k`, for `k` below eight.
pub fn mask_of(k: usize) -> (m: u8)
    requires
        k < 8,
    ensures
        m == bit_mask(k as int),
        m != 0,
{
    if k == 0 {
        0x80
    } else if k == 1 {
        0x40
    } else if k == 2 {
        0x20
    } else if k == 3 {
        0x10
    } else if k == 4 {
        0x08
    } else if k == 5 {
        0x04
    } else if k == 6 {
        0x02
    } else {
        0x01
    }
}

/// Packs bits into bytes, most significant bit first.
pub fn pack_bits(bits: &[bool]) -> (out: Vec<u8>)
    ensures
        out@ == packed(bits@),
{
    let mut out: Vec<u8> = Vec::new();
    let mut current: u8 = 0;
    let mut count: usize = 0;
    let mut i: usize = 0;
    while i < bits.len()
        invariant
            i <= bits@.len(),
            count == i % 8,
            out@.len() == i / 8,
            forall|j: int| 0 <= j < out@.len() ==> out@[j] == pack_byte(bits@, 8 * j, 8),
            current == pack_byte(bits@, 8 * (i / 8), count as int),
        decreases bits@.len() - i,
    {
        let ghost start = 8 * (i / 8);
        let m: u8 = if bits[i] {
            mask_of(count)
        } else {
            0
        };
        proof {
            assert(start + count == i);
            assert(pack_byte(bits@, start, count + 1) == pack_byte(bits@, start, count as int) | m);
        }
        current = current | m;
        count += 1;
        i += 1;
        if count == 8 {
            out.push(current);
            current = 0;
            count = 0;
            assert(i / 8 == start / 8 + 1);
        } else {
            assert(i / 8 == start / 8);
        }
    }
    if count > 0 {
        proof {
            lemma_pack_byte_past_end(bits@, 8 * (i / 8), count as int, 8);
        }
        out.push(current);
    }
    assert(out@ =~= packed(bits@));
    out
}

/// Bits past the end of the sequence add nothing to a packed byte.
pub proof fn lemma_pack_byte_past_end(bits: Seq<bool>, start: int, k: int, upto: int)
    requires
        0 <= k <= upto,
        start + k >= bits.len(),
    ensures
        pack_byte(bits, start, upto) == pack_byte(bits, start, k),
    decreases upto - k,
{
    if k < upto {
        lemma_pack_byte_past_end(bits, start, k, upto - 1);
        let b = pack_byte(bits, start, upto - 1);
        assert(b | 0u8 == b) by (bit_vector);
    }
}

/// Reads the first `n` bits of `bytes`.
pub fn unpack_bits(bytes: &[u8], n: usize) -> (out: Vec<bool>)
    requires
        n <= 8 * bytes@.len(),
    ensures
        out@ == unpacked(bytes@, n as int),
{
    let mut out: Vec<bool> = Vec::new();
    let mut i: usize = 0;
    while i < n
        invariant
            i <= n <= 8 * bytes@.len(),
            out@ == unpacked(bytes@, i as int),
        decreases n - i,
    {
        let bit: bool = bytes[i / 8] & mask_of(i % 8) != 0;
        out.push(bit);
        i += 1;
        assert(out@ =~= unpacked(bytes@, i as int));
    }
    out
}

/// Each bit of a packed byte is the bit that went in.
pub proof fn lemma_packed_bit(bits: Seq<bool>, i: int)
    requires
        0 <= i < bits.len(),
    ensures
        bit_at(packed(bits), i) == bits[i],
{
    let j = i / 8;
    let s = 8 * j;
    let b0 = pack_byte(bits, s, 0);
    let b1 = pack_byte(bits, s, 1);
    let b2 = pack_byte(bits, s, 2);
    let b3 = pack_byte(bits, s, 3);
    let b4 = pack_byte(bits, s, 4);
    let b5 = pack_byte(bits, s, 5);
    let b6 = pack_byte(bits, s, 6);
    let b7 = pack_byte(bits, s, 7);
    let b8 = pack_byte(bits, s, 8);
    let m0 = if 0 <= s < bits.len() && bits[s] { 0x80u8 } else { 0u8 };
    let m1 = if 0 <= s + 1 < bits.len() && bits[s + 1] { 0x40u8 } else { 0u8 };
    let m2 = if 0 <= s + 2 < bits.len() && bits[s + 2] { 0x20u8 } else { 0u8 };
    let m3 = if 0 <= s + 3 < bits.len() && bits[s + 3] { 0x10u8 } else { 0u8 };
    let m4 = if 0 <= s + 4 < bits.len() && bits[s + 4] { 0x08u8 } else { 0u8 };
    let m5 = if 0 <= s + 5 < bits.len() && bits[s + 5] { 0x04u8 } else { 0u8 };
    let m6 = if 0 <= s + 6 < bits.len() && bits[s + 6] { 0x02u8 } else { 0u8 };
    let m7 = if 0 <= s + 7 < bits.len() && bits[s + 7] { 0x01u8 } else { 0u8 };
    assert(b0 == 0);
    assert(b1 == b0 | m0);
    assert(b2 == b1 | m1);
    assert(b3 == b2 | m2);
    assert(b4 == b3 | m3);
    assert(b5 == b4 | m4);
    assert(b6 == b5 | m5);
    assert(b7 == b6 | m6);
    assert(b8 == b7 | m7);
    assert(packed(bits)[j] == b8);
    assert((m0 == 0 || m0 == 0x80) && (m1 == 0 || m1 == 0x40) && (m2 == 0 || m2 == 0x20) && (m3
        == 0 || m3 == 0x10) && (m4 == 0 || m4 == 0x08) && (m5 == 0 || m5 == 0x04) && (m6 == 0
        || m6 == 0x02) && (m7 == 0 || m7 == 0x01));
    assert((b8 & 0x80 != 0) == (m0 != 0) && (b8 & 0x40 != 0) == (m1 != 0) && (b8 & 0x20 != 0) == (
    m2 != 0) && (b8 & 0x10 != 0) == (m3 != 0) && (b8 & 0x08 != 0) == (m4 != 0) && (b8 & 0x04 != 0)
        == (m5 != 0) && (b8 & 0x02 != 0) == (m6 != 0) && (b8 & 0x01 != 0) == (m7 != 0))
        by (bit_vector)
        requires
            b8 == 0u8 | m0 | m1 | m2 | m3 | m4 | m5 | m6 | m7,
            (m0 == 0 || m0 == 0x80) && (m1 == 0 || m1 == 0x40) && (m2 == 0 || m2 == 0x20) && (m3
                == 0 || m3 == 0x10) && (m4 == 0 || m4 == 0x08) && (m5 == 0 || m5 == 0x04) && (m6
                == 0 || m6 == 0x02) && (m7 == 0 || m7 == 0x01),
    ;
}

/// Unpacking what was packed gives the bits back.
pub proof fn lemma_pack_round_trip(bits: Seq<bool>)
    ensures
        packed(bits).len() == byte_len(bits.len() as int),
        unpacked(packed(bits), bits.len() as int) == bits,
{
    assert forall|i: int| 0 <= i < bits.len() implies bit_at(packed(bits), i) == bits[i] by {
        lemma_packed_bit(bits, i);
    }
    assert(unpacked(packed(bits), bits.len() as int) =~= bits);
}

} // verus!
