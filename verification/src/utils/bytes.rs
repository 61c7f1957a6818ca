use vstd::prelude::*;

verus! {

/// The two bytes of `v`, most significant first.
pub open spec fn u16_be(v: u16) -> Seq<u8> {
    seq![(v >> 8) as u8, (v & 0xff) as u8]
}

/// The four bytes of `v`, most significant first.
pub open spec fn u32_be(v: u32) -> Seq<u8> {
    seq![(v >> 24) as u8, ((v >> 16) & 0xff) as u8, ((v >> 8) & 0xff) as u8, (v & 0xff) as u8]
}

/// The eight bytes of `v`, most significant first.
pub open spec fn u64_be(v: u64) -> Seq<u8> {
    seq![
        (v >> 56) as u8,
        ((v >> 48) & 0xff) as u8,
        ((v >> 40) & 0xff) as u8,
        ((v >> 32) & 0xff) as u8,
        ((v >> 24) & 0xff) as u8,
        ((v >> 16) & 0xff) as u8,
        ((v >> 8) & 0xff) as u8,
        (v & 0xff) as u8,
    ]
}

/// The number whose big-endian bytes are `b0 b1`.
pub open spec fn u16_of_be(b0: u8, b1: u8) -> u16 {
    ((b0 as u16) << 8) | (b1 as u16)
}

/// The number whose big-endian bytes are `b0 b1 b2 b3`.
pub open spec fn u32_of_be(b0: u8, b1: u8, b2: u8, b3: u8) -> u32 {
    ((b0 as u32) << 24) | ((b1 as u32) << 16) | ((b2 as u32) << 8) | (b3 as u32)
}

/// The number whose big-endian bytes are the eight bytes of `s` from `at` on.
pub open spec fn u64_at(s: Seq<u8>, at: int) -> u64 {
    ((u32_at(s, at) as u64) << 32) | (u32_at(s, at + 4) as u64)
}

/// The number whose big-endian bytes are the two bytes of `s` from `at` on.
pub open spec fn u16_at(s: Seq<u8>, at: int) -> u16 {
    u16_of_be(s[at], s[at + 1])
}

/// The number whose big-endian bytes are the four bytes of `s` from `at` on.
pub open spec fn u32_at(s: Seq<u8>, at: int) -> u32 {
    u32_of_be(s[at], s[at + 1], s[at + 2], s[at + 3])
}

/// Reads a big-endian `u16` at offset `at`.
pub fn read_u16_be(buf: &[u8], at: usize) -> (v: u16)
    requires
        at + 2 <= buf@.len(),
    ensures
        v == u16_at(buf@, at as int),
{
    ((buf[at] as u16) << 8) | (buf[at + 1] as u16)
}

/// Reads a big-endian `u32` at offset `at`.
pub fn read_u32_be(buf: &[u8], at: usize) -> (v: u32)
    requires
        at + 4 <= buf@.len(),
    ensures
        v == u32_at(buf@, at as int),
{
    ((buf[at] as u32) << 24) | ((buf[at + 1] as u32) << 16) | ((buf[at + 2] as u32) << 8) | (buf[at
        + 3] as u32)
}

/// Reads a big-endian `u64` at offset `at`.
pub fn read_u64_be(buf: &[u8], at: usize) -> (v: u64)
    requires
        at + 8 <= buf@.len(),
    ensures
        v == u64_at(buf@, at as int),
{
    let total: usize = buf.len();
    assert(at + 8 <= total);
    let hi: u32 = read_u32_be(buf, at);
    let lo: u32 = read_u32_be(buf, at + 4);
    ((hi as u64) << 32) | (lo as u64)
}

/// Appends the big-endian bytes of `v`.
pub fn put_u16_be(out: &mut Vec<u8>, v: u16)
    ensures
        final(out)@ == old(out)@ + u16_be(v),
{
    out.push((v >> 8) as u8);
    out.push((v & 0xff) as u8);
    assert(out@ =~= old(out)@ + u16_be(v));
}

/// Appends the big-endian bytes of `v`.
pub fn put_u32_be(out: &mut Vec<u8>, v: u32)
    ensures
        final(out)@ == old(out)@ + u32_be(v),
{
    out.push((v >> 24) as u8);
    out.push(((v >> 16) & 0xff) as u8);
    out.push(((v >> 8) & 0xff) as u8);
    out.push((v & 0xff) as u8);
    assert(out@ =~= old(out)@ + u32_be(v));
}

/// Appends the big-endian bytes of `v`.
pub fn put_u64_be(out: &mut Vec<u8>, v: u64)
    ensures
        final(out)@ == old(out)@ + u64_be(v),
{
    out.push((v >> 56) as u8);
    out.push(((v >> 48) & 0xff) as u8);
    out.push(((v >> 40) & 0xff) as u8);
    out.push(((v >> 32) & 0xff) as u8);
    out.push(((v >> 24) & 0xff) as u8);
    out.push(((v >> 16) & 0xff) as u8);
    out.push(((v >> 8) & 0xff) as u8);
    out.push((v & 0xff) as u8);
    assert(out@ =~= old(out)@ + u64_be(v));
}

/// Appends every byte of `src`.
pub fn put_bytes(out: &mut Vec<u8>, src: &[u8])
    ensures
        final(out)@ == old(out)@ + src@,
{
    out.extend_from_slice(src);
}

/// A fresh copy of `buf[from..to]`.
pub fn copy_range(buf: &[u8], from: usize, to: usize) -> (v: Vec<u8>)
    requires
        from <= to <= buf@.len(),
    ensures
        v@ == buf@.subrange(from as int, to as int),
{
    let mut v: Vec<u8> = Vec::new();
    let mut i: usize = from;
    while i < to
        invariant
            from <= i <= to <= buf@.len(),
            v@ == buf@.subrange(from as int, i as int),
        decreases to - i,
    {
        v.push(buf[i]);
        i += 1;
        assert(v@ =~= buf@.subrange(from as int, i as int));
    }
    v
}

/// Reading back what `put_u16_be` wrote gives the number written.
pub proof fn lemma_u16_be_round_trip(v: u16)
    ensures
        u16_be(v).len() == 2,
        u16_at(u16_be(v), 0) == v,
{
    assert((((v >> 8) as u8 as u16) << 8) | ((v & 0xff) as u8 as u16) == v) by (bit_vector);
}

/// Reading back what `put_u32_be` wrote gives the number written.
pub proof fn lemma_u32_be_round_trip(v: u32)
    ensures
        u32_be(v).len() == 4,
        u32_at(u32_be(v), 0) == v,
{
    assert((((v >> 24) as u8 as u32) << 24) | ((((v >> 16) & 0xff) as u8 as u32) << 16) | ((((v
        >> 8) & 0xff) as u8 as u32) << 8) | ((v & 0xff) as u8 as u32) == v) by (bit_vector);
}

/// Reading back what `put_u64_be` wrote gives the number written.
pub proof fn lemma_u64_be_round_trip(v: u64)
    ensures
        u64_be(v).len() == 8,
        u64_at(u64_be(v), 0) == v,
{
    let s = u64_be(v);
    let hi = u32_at(s, 0);
    let lo = u32_at(s, 4);
    assert(hi == (v >> 32) as u32) by (bit_vector)
        requires
            hi == (((v >> 56) as u8 as u32) << 24) | ((((v >> 48) & 0xff) as u8 as u32) << 16) | ((((v
                >> 40) & 0xff) as u8 as u32) << 8) | (((v >> 32) & 0xff) as u8 as u32),
    ;
    assert(lo == (v & 0xffff_ffff) as u32) by (bit_vector)
        requires
            lo == ((((v >> 24) & 0xff) as u8 as u32) << 24) | ((((v >> 16) & 0xff) as u8 as u32)
                << 16) | ((((v >> 8) & 0xff) as u8 as u32) << 8) | ((v & 0xff) as u8 as u32),
    ;
    assert(((((v >> 32) as u32) as u64) << 32) | (((v & 0xffff_ffff) as u32) as u64) == v)
        by (bit_vector);
}

/// The four bytes read as a number are the big-endian bytes of that number.
pub proof fn lemma_u32_at_is_be(s: Seq<u8>, at: int)
    requires
        0 <= at,
        at + 4 <= s.len(),
    ensures
        u32_be(u32_at(s, at)) == s.subrange(at, at + 4),
{
    let b0 = s[at];
    let b1 = s[at + 1];
    let b2 = s[at + 2];
    let b3 = s[at + 3];
    let v = u32_at(s, at);
    assert((v >> 24) as u8 == b0 && ((v >> 16) & 0xff) as u8 == b1 && ((v >> 8) & 0xff) as u8 == b2
        && (v & 0xff) as u8 == b3) by (bit_vector)
        requires
            v == ((b0 as u32) << 24) | ((b1 as u32) << 16) | ((b2 as u32) << 8) | (b3 as u32),
    ;
    assert(u32_be(v) =~= s.subrange(at, at + 4));
}

/// The eight bytes read as a number are the big-endian bytes of that number.
pub proof fn lemma_u64_at_is_be(s: Seq<u8>, at: int)
    requires
        0 <= at,
        at + 8 <= s.len(),
    ensures
        u64_be(u64_at(s, at)) == s.subrange(at, at + 8),
{
    let hi = u32_at(s, at);
    let lo = u32_at(s, at + 4);
    let v = u64_at(s, at);
    lemma_u32_at_is_be(s, at);
    lemma_u32_at_is_be(s, at + 4);
    assert((v >> 56) as u8 == (hi >> 24) as u8 && ((v >> 48) & 0xff) as u8 == ((hi >> 16) & 0xff) as u8
        && ((v >> 40) & 0xff) as u8 == ((hi >> 8) & 0xff) as u8 && ((v >> 32) & 0xff) as u8 == (hi
        & 0xff) as u8 && ((v >> 24) & 0xff) as u8 == (lo >> 24) as u8 && ((v >> 16) & 0xff) as u8
        == ((lo >> 16) & 0xff) as u8 && ((v >> 8) & 0xff) as u8 == ((lo >> 8) & 0xff) as u8 && (v
        & 0xff) as u8 == (lo & 0xff) as u8) by (bit_vector)
        requires
            v == ((hi as u64) << 32) | (lo as u64),
    ;
    let a = s.subrange(at, at + 4);
    let b = s.subrange(at + 4, at + 8);
    assert(u32_be(hi) == a);
    assert(u32_be(lo) == b);
    assert(u64_be(v)[0] == u32_be(hi)[0]);
    assert(u64_be(v)[1] == u32_be(hi)[1]);
    assert(u64_be(v)[2] == u32_be(hi)[2]);
    assert(u64_be(v)[3] == u32_be(hi)[3]);
    assert(u64_be(v)[4] == u32_be(lo)[0]);
    assert(u64_be(v)[5] == u32_be(lo)[1]);
    assert(u64_be(v)[6] == u32_be(lo)[2]);
    assert(u64_be(v)[7] == u32_be(lo)[3]);
    assert(u64_be(v) =~= s.subrange(at, at + 8));
}

/// Whether two byte strings are equal.
pub fn bytes_eq(a: &[u8], b: &[u8]) -> (same: bool)
    ensures
        same == (a@ == b@),
{
    if a.len() != b.len() {
        return false;
    }
    let mut i: usize = 0;
    while i < a.len()
        invariant
            i <= a@.len(),
            a@.len() == b@.len(),
            forall|k: int| 0 <= k < i ==> a@[k] == b@[k],
        decreases a@.len() - i,
    {
        if a[i] != b[i] {
            return false;
        }
        i += 1;
    }
    assert(a@ =~= b@);
    true
}

} // verus!
