use vstd::prelude::*;
use crate::engine::bits::{byte_len, pack_bits, packed, unpack_bits, unpacked};
use crate::engine::huffman::codes_of;
use crate::utils::bytes::{copy_range, put_bytes, put_u32_be, read_u32_be, u32_at, u32_be};

verus! {

/// One table entry on the wire: the token, the code's length in bits, the
/// number of bytes the code takes, and the code's bits packed. Both lengths
/// are one byte wide and hold the length modulo 256.
pub open spec fn entry_bytes(e: (u32, Seq<bool>)) -> Seq<u8> {
    u32_be(e.0) + seq![(e.1.len() % 256) as u8, (byte_len(e.1.len() as int) % 256) as u8] + packed(
        e.1,
    )
}

/// The table entries on the wire, in order.
pub open spec fn table_bytes(codes: Seq<(u32, Seq<bool>)>) -> Seq<u8>
    decreases codes.len(),
{
    if codes.len() == 0 {
        Seq::<u8>::empty()
    } else {
        entry_bytes(codes[0]) + table_bytes(codes.skip(1))
    }
}

/// An encoded object: the number of table entries, the table, the length of
/// the bit stream in bytes, the bit stream. Numbers are big-endian and four
/// bytes wide, and hold the count modulo 2^32.
pub open spec fn payload_bytes(codes: Seq<(u32, Seq<bool>)>, stream: Seq<u8>) -> Seq<u8> {
    u32_be((codes.len() % 0x1_0000_0000) as u32) + table_bytes(codes) + u32_be(
        (stream.len() % 0x1_0000_0000) as u32,
    ) + stream
}

/// The code that the table entry at `at` carries: as many bits as its length
/// byte says, or as its bytes hold if those are fewer.
pub open spec fn entry_code(data: Seq<u8>, at: int) -> Seq<bool> {
    let bits = data[at + 4] as int;
    let held = 8 * (data[at + 5] as int);
    unpacked(
        data.subrange(at + 6, at + 6 + data[at + 5]),
        if bits < held {
            bits
        } else {
            held
        },
    )
}

/// The next `count` table entries from offset `at` on, and the offset behind
/// them; nothing where the data ends inside an entry.
pub open spec fn parsed_entries(data: Seq<u8>, at: int, count: int) -> Option<
    (Seq<(u32, Seq<bool>)>, int),
>
    decreases count,
{
    if count <= 0 {
        Some((Seq::<(u32, Seq<bool>)>::empty(), at))
    } else if at < 0 || at + 6 > data.len() || at + 6 + data[at + 5] > data.len() {
        None
    } else {
        match parsed_entries(data, at + 6 + data[at + 5], count - 1) {
            None => None,
            Some((rest, end)) => Some((seq![(u32_at(data, at), entry_code(data, at))] + rest, end)),
        }
    }
}

/// The table and the bit stream of an encoded object; nothing where the data
/// is shorter than its layout says.
pub open spec fn parsed_object(data: Seq<u8>) -> Option<(Seq<(u32, Seq<bool>)>, Seq<u8>)> {
    if data.len() < 4 {
        None
    } else {
        match parsed_entries(data, 4, u32_at(data, 0) as int) {
            None => None,
            Some((codes, at)) => if at + 4 > data.len() || at + 4 + u32_at(data, at) > data.len() {
                None
            } else {
                Some((codes, data.subrange(at + 4, at + 4 + u32_at(data, at))))
            },
        }
    }
}

/// The table bytes of a table with one more entry at the end.
pub proof fn lemma_table_bytes_push(codes: Seq<(u32, Seq<bool>)>, e: (u32, Seq<bool>))
    ensures
        table_bytes(codes.push(e)) == table_bytes(codes) + entry_bytes(e),
    decreases codes.len(),
{
    if codes.len() == 0 {
        assert(codes.push(e).skip(1) =~= Seq::<(u32, Seq<bool>)>::empty());
        assert(table_bytes(codes.push(e).skip(1)) =~= Seq::<u8>::empty());
        assert(codes.push(e)[0] == e);
        assert(table_bytes(codes.push(e)) =~= entry_bytes(e));
        assert(table_bytes(codes) + entry_bytes(e) =~= entry_bytes(e));
    } else {
        lemma_table_bytes_push(codes.skip(1), e);
        assert(codes.push(e).skip(1) =~= codes.skip(1).push(e));
        assert(codes.push(e)[0] == codes[0]);
        assert(table_bytes(codes.push(e)) =~= table_bytes(codes) + entry_bytes(e));
    }
}

/// Writes an encoded object: the code table, then the bit stream.
pub fn write_payload(table: &Vec<(u32, Vec<bool>)>, stream: &[u8]) -> (out: Vec<u8>)
    ensures
        out@ == payload_bytes(codes_of(table@), stream@),
{
    let ghost codes = codes_of(table@);
    let mut out: Vec<u8> = Vec::new();
    put_u32_be(&mut out, ((table.len() as u64) % 0x1_0000_0000) as u32);
    let ghost head = out@;
    let mut i: usize = 0;
    proof {
        assert(codes.take(0) =~= Seq::<(u32, Seq<bool>)>::empty());
        assert(out@ =~= head + table_bytes(codes.take(0)));
    }
    while i < table.len()
        invariant
            i <= table@.len(),
            codes == codes_of(table@),
            out@ == head + table_bytes(codes.take(i as int)),
        decreases table@.len() - i,
    {
        let code: &Vec<bool> = &table[i].1;
        let body: Vec<u8> = pack_bits(code.as_slice());
        let ghost before = out@;
        put_u32_be(&mut out, table[i].0);
        out.push((code.len() % 256) as u8);
        out.push((body.len() % 256) as u8);
        put_bytes(&mut out, body.as_slice());
        proof {
            assert(codes[i as int] == (table@[i as int].0, code@));
            assert(out@ =~= before + entry_bytes(codes[i as int]));
            lemma_table_bytes_push(codes.take(i as int), codes[i as int]);
            assert(codes.take(i + 1) =~= codes.take(i as int).push(codes[i as int]));
        }
        i += 1;
    }
    proof {
        assert(codes.take(i as int) =~= codes);
    }
    put_u32_be(&mut out, ((stream.len() as u64) % 0x1_0000_0000) as u32);
    put_bytes(&mut out, stream);
    proof {
        assert(out@ =~= payload_bytes(codes, stream@));
    }
    out
}

/// Reads an encoded object back into its code table and its bit stream.
pub fn read_payload(data: &[u8]) -> (r: Option<(Vec<(u32, Vec<bool>)>, Vec<u8>)>)
    ensures
        match r {
            Some((table, stream)) => parsed_object(data@) == Some((codes_of(table@), stream@)),
            None => parsed_object(data@) is None,
        },
{
    let n: usize = data.len();
    if n < 4 {
        return None;
    }
    let count: u32 = read_u32_be(data, 0);
    let mut table: Vec<(u32, Vec<bool>)> = Vec::new();
    let mut at: usize = 4;
    let mut i: u32 = 0;
    proof {
        assert(codes_of(table@) =~= Seq::<(u32, Seq<bool>)>::empty());
        lemma_parsed_prefix(data@, 4, count as int, codes_of(table@));
    }
    while i < count
        invariant
            i <= count,
            4 <= at <= n,
            n == data@.len(),
            count == u32_at(data@, 0),
            parsed_entries(data@, 4, count as int) == with_prefix(
                codes_of(table@),
                parsed_entries(data@, at as int, count - i),
            ),
        decreases count - i,
    {
        if n - at < 6 {
            return None;
        }
        let token: u32 = read_u32_be(data, at);
        let bits: usize = data[at + 4] as usize;
        let held: usize = data[at + 5] as usize;
        if n - at - 6 < held {
            return None;
        }
        let from: usize = at + 6;
        let body: Vec<u8> = copy_range(data, from, from + held);
        let used: usize = if bits < 8 * held {
            bits
        } else {
            8 * held
        };
        let code: Vec<bool> = unpack_bits(body.as_slice(), used);
        proof {
            assert(code@ == entry_code(data@, at as int));
            let rest = parsed_entries(data@, at + 6 + held, count - i - 1);
            let e = (token, code@);
            assert(codes_of(table@.push((token, code))) =~= codes_of(table@).push(e));
            match rest {
                None => {},
                Some((more, end)) => {
                    assert(codes_of(table@) + (seq![e] + more) =~= codes_of(table@).push(e) + more);
                },
            }
        }
        table.push((token, code));
        at = from + held;
        i += 1;
    }
    proof {
        assert(codes_of(table@) + Seq::<(u32, Seq<bool>)>::empty() =~= codes_of(table@));
    }
    if n - at < 4 {
        return None;
    }
    let size: usize = read_u32_be(data, at) as usize;
    if n - at - 4 < size {
        return None;
    }
    let stream: Vec<u8> = copy_range(data, at + 4, at + 4 + size);
    Some((table, stream))
}

/// A parse result with entries already read put in front.
pub open spec fn with_prefix(
    done: Seq<(u32, Seq<bool>)>,
    rest: Option<(Seq<(u32, Seq<bool>)>, int)>,
) -> Option<(Seq<(u32, Seq<bool>)>, int)> {
    match rest {
        None => None,
        Some((more, end)) => Some((done + more, end)),
    }
}

/// Nothing read yet changes nothing.
pub proof fn lemma_parsed_prefix(data: Seq<u8>, at: int, count: int, done: Seq<(u32, Seq<bool>)>)
    requires
        done.len() == 0,
    ensures
        parsed_entries(data, at, count) == with_prefix(done, parsed_entries(data, at, count)),
{
    match parsed_entries(data, at, count) {
        None => {},
        Some((more, end)) => {
            assert(done + more =~= more);
        },
    }
}

} // verus!
