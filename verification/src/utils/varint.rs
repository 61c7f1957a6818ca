use vstd::prelude::*;

verus! {

/// The little-endian base-128 encoding of `value`: seven bits per byte, the
/// high bit set on every byte but the last.
pub open spec fn varint_encoding(value: nat) -> Seq<u8>
    decreases value,
{
    if value < 0x80 {
        seq![value as u8]
    } else {
        seq![((value % 0x80) + 0x80) as u8] + varint_encoding(value / 0x80)
    }
}

/// The seven payload bits of `byte`, moved to the place of group number `i`.
/// Bits pushed past the 64th are lost.
pub open spec fn varint_group(byte: u8, i: int) -> u64 {
    (((byte & 0x7f) as u64) << ((7 * i) as u64))
}

/// What a scan of `buf` from byte `i` on yields, `acc` being the value of the
/// groups before `i`: the value and the number of bytes used once a byte
/// without the continuation bit is met; nothing if the buffer ends first or
/// ten bytes go by without one.
pub open spec fn varint_scan(buf: Seq<u8>, i: int, acc: u64) -> Option<(u64, usize)>
    decreases buf.len() - i,
{
    if i < 0 || i >= buf.len() || i >= 10 {
        None
    } else {
        let next = acc | varint_group(buf[i], i);
        if buf[i] & 0x80 == 0 {
            Some((next, (i + 1) as usize))
        } else {
            varint_scan(buf, i + 1, next)
        }
    }
}

/// Appends the varint encoding of `value` to `out`.
pub fn encode_varint(value: u64, out: &mut Vec<u8>)
    ensures
        final(out)@ == old(out)@ + varint_encoding(value as nat),
{
    let mut v: u64 = value;
    while v >= 0x80
        invariant
            out@ + varint_encoding(v as nat) == old(out)@ + varint_encoding(value as nat),
        decreases v,
    {
        let low: u8 = ((v & 0x7f) as u8) | 0x80;
        let rest: u64 = v >> 7;
        proof {
            assert(low == ((v % 0x80) + 0x80) as u8) by (bit_vector)
                requires
                    low == ((v & 0x7f) as u8) | 0x80,
            ;
            assert(rest == v / 0x80 && rest < v) by (bit_vector)
                requires
                    rest == v >> 7,
                    v >= 0x80,
            ;
            assert(varint_encoding(v as nat) == seq![low] + varint_encoding(rest as nat));
            assert(out@.push(low) + varint_encoding(rest as nat) =~= out@ + (seq![low]
                + varint_encoding(rest as nat)));
        }
        out.push(low);
        v = rest;
    }
    proof {
        assert(varint_encoding(v as nat) == seq![v as u8]);
        assert(out@.push(v as u8) =~= out@ + seq![v as u8]);
    }
    out.push(v as u8);
}

/// Reads one varint from the start of `buf`: its value and the number of bytes
/// it took, or nothing where `buf` holds no complete varint of at most ten
/// bytes.
pub fn decode_varint(buf: &[u8]) -> (r: Option<(u64, usize)>)
    ensures
        r == varint_scan(buf@, 0, 0),
{
    let mut result: u64 = 0;
    let mut i: usize = 0;
    while i < buf.len() && i < 10
        invariant
            i <= buf@.len(),
            i <= 10,
            varint_scan(buf@, i as int, result) == varint_scan(buf@, 0, 0),
        decreases buf@.len() - i,
    {
        let byte: u8 = buf[i];
        let shift: u64 = 7 * (i as u64);
        let next: u64 = result | (((byte & 0x7f) as u64) << shift);
        if byte & 0x80 == 0 {
            return Some((next, i + 1));
        }
        result = next;
        i += 1;
    }
    None
}

/// A scan that has read `i` groups with the value `acc` and now meets the
/// encoding of what is left of a number reads the number.
proof fn lemma_scan_rest(buf: Seq<u8>, i: int, acc: u64, rest: u64)
    requires
        0 <= i <= 9,
        i <= buf.len(),
        buf.skip(i) == varint_encoding(rest as nat),
        rest <= u64::MAX >> ((7 * i) as u64),
    ensures
        varint_scan(buf, i, acc) == Some(
            (acc | (rest << ((7 * i) as u64)), (i + varint_encoding(rest as nat).len()) as usize),
        ),
        i + varint_encoding(rest as nat).len() <= 10,
    decreases rest,
{
    let s = (7 * i) as u64;
    let enc = varint_encoding(rest as nat);
    if rest < 0x80 {
        let byte = rest as u8;
        assert(enc =~= seq![byte]);
        assert(buf.skip(i).len() == 1);
        assert(buf[i] == buf.skip(i)[0]);
        assert(byte & 0x80 == 0 && ((byte & 0x7f) as u64) == rest) by (bit_vector)
            requires
                rest < 0x80,
                byte == rest as u8,
        ;
    } else {
        let byte = ((rest % 0x80) + 0x80) as u8;
        let higher = rest / 0x80;
        assert(enc == seq![byte] + varint_encoding(higher as nat));
        assert(buf.skip(i).len() >= 1);
        assert(buf[i] == buf.skip(i)[0]);
        assert(byte & 0x80 != 0 && ((byte & 0x7f) as u64) == rest % 0x80) by (bit_vector)
            requires
                byte == ((rest % 0x80) + 0x80) as u8,
        ;
        assert(s == 0 || s == 7 || s == 14 || s == 21 || s == 28 || s == 35 || s == 42 || s == 49
            || s == 56 || s == 63);
        assert(s <= 56 && higher <= u64::MAX >> ((s + 7) as u64) && (((rest % 0x80) << s) | (higher
            << ((s + 7) as u64))) == rest << s) by (bit_vector)
            requires
                s == 0 || s == 7 || s == 14 || s == 21 || s == 28 || s == 35 || s == 42 || s == 49
                    || s == 56 || s == 63,
                rest >= 0x80,
                rest <= u64::MAX >> s,
                higher == rest / 0x80,
        ;
        let next = acc | varint_group(buf[i], i);
        assert(buf.skip(i + 1) =~= varint_encoding(higher as nat)) by {
            assert(buf.skip(i + 1) =~= buf.skip(i).skip(1));
        }
        lemma_scan_rest(buf, i + 1, next, higher);
        let s7 = (s + 7) as u64;
        assert((acc | ((rest % 0x80) << s)) | (higher << s7) == acc | (rest << s)) by (bit_vector)
            requires
                (((rest % 0x80) << s) | (higher << s7)) == rest << s,
        ;
    }
}

/// Decoding what was encoded gives the number back, and the number of bytes
/// that the encoding took.
pub proof fn lemma_varint_round_trip(value: u64)
    ensures
        varint_scan(varint_encoding(value as nat), 0, 0) == Some(
            (value, varint_encoding(value as nat).len() as usize),
        ),
        1 <= varint_encoding(value as nat).len() <= 10,
{
    let enc = varint_encoding(value as nat);
    assert(enc.skip(0) =~= enc);
    assert(value <= u64::MAX >> 0u64) by (bit_vector);
    lemma_scan_rest(enc, 0, 0, value);
    assert(0u64 | (value << 0u64) == value) by (bit_vector);
}

} // verus!
