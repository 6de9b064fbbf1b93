//! Little-endian integers inside byte sequences.

use vstd::prelude::*;

verus! {

/// The little-endian 32-bit value of `s[at..at + 4]`.
pub open spec fn le_u32(s: Seq<u8>, at: int) -> nat {
    s[at] as nat + 256 * (s[at + 1] as nat) + 65536 * (s[at + 2] as nat) + 16777216 * (s[at
        + 3] as nat)
}

/// The little-endian 64-bit value of `s[at..at + 8]`.
pub open spec fn le_u64(s: Seq<u8>, at: int) -> nat {
    le_u32(s, at) + 4294967296 * le_u32(s, at + 4)
}

/// The four little-endian bytes of `v`.
pub open spec fn u32_le_bytes(v: nat) -> Seq<u8> {
    seq![
        (v % 256) as u8,
        ((v / 256) % 256) as u8,
        ((v / 65536) % 256) as u8,
        ((v / 16777216) % 256) as u8,
    ]
}

/// The eight little-endian bytes of `v`.
pub open spec fn u64_le_bytes(v: nat) -> Seq<u8> {
    u32_le_bytes(v % 4294967296) + u32_le_bytes(v / 4294967296)
}

/// Reading back four written bytes gives the value.
pub proof fn lemma_u32_roundtrip(v: nat)
    requires
        v < 0x1_0000_0000,
    ensures
        le_u32(u32_le_bytes(v), 0) == v,
        u32_le_bytes(v).len() == 4,
{
    let b = u32_le_bytes(v);
    assert(b[0] as nat == v % 256);
    assert(b[1] as nat == (v / 256) % 256);
    assert(b[2] as nat == (v / 65536) % 256);
    assert(b[3] as nat == (v / 16777216) % 256);
    assert(v % 256 + 256 * ((v / 256) % 256) + 65536 * ((v / 65536) % 256) + 16777216 * ((v
        / 16777216) % 256) == v) by (nonlinear_arith)
        requires
            v < 0x1_0000_0000,
    ;
}

/// Reading back eight written bytes gives the value.
pub proof fn lemma_u64_roundtrip(v: nat)
    requires
        v < 0x1_0000_0000_0000_0000,
    ensures
        le_u64(u64_le_bytes(v), 0) == v,
        u64_le_bytes(v).len() == 8,
{
    let lo = v % 4294967296;
    let hi = v / 4294967296;
    assert(hi < 0x1_0000_0000) by (nonlinear_arith)
        requires
            v < 0x1_0000_0000_0000_0000,
            hi == v / 4294967296,
    ;
    lemma_u32_roundtrip(lo);
    lemma_u32_roundtrip(hi);
    let b = u64_le_bytes(v);
    assert(le_u32(b, 0) == le_u32(u32_le_bytes(lo), 0));
    assert(le_u32(b, 4) == le_u32(u32_le_bytes(hi), 0));
    assert(lo + 4294967296 * hi == v) by (nonlinear_arith)
        requires
            lo == v % 4294967296,
            hi == v / 4294967296,
    ;
}

/// Reads the little-endian 32-bit value at `at`.
pub fn read_u32_le(src: &[u8], at: usize) -> (v: u32)
    requires
        at + 4 <= src@.len(),
    ensures
        v as nat == le_u32(src@, at as int),
{
    (src[at] as u32) + (src[at + 1] as u32) * 256 + (src[at + 2] as u32) * 65536 + (src[at
        + 3] as u32) * 16777216
}

/// Reads the little-endian 64-bit value at `at`.
pub fn read_u64_le(src: &[u8], at: usize) -> (v: u64)
    requires
        at + 8 <= src@.len(),
    ensures
        v as nat == le_u64(src@, at as int),
{
    let len = src.len();
    let lo = read_u32_le(src, at) as u64;
    let hi = read_u32_le(src, at + 4) as u64;
    lo + hi * 4294967296
}

/// Appends the four little-endian bytes of `v`.
pub fn push_u32_le(out: &mut Vec<u8>, v: u32)
    ensures
        final(out)@ == old(out)@ + u32_le_bytes(v as nat),
{
    out.push((v % 256) as u8);
    out.push(((v / 256) % 256) as u8);
    out.push(((v / 65536) % 256) as u8);
    out.push(((v / 16777216) % 256) as u8);
    proof {
        assert(out@ =~= old(out)@ + u32_le_bytes(v as nat));
    }
}

/// Appends the eight little-endian bytes of `v`.
pub fn push_u64_le(out: &mut Vec<u8>, v: u64)
    ensures
        final(out)@ == old(out)@ + u64_le_bytes(v as nat),
{
    let ghost before = out@;
    push_u32_le(out, (v % 4294967296) as u32);
    push_u32_le(out, (v / 4294967296) as u32);
    proof {
        assert(out@ =~= before + u64_le_bytes(v as nat));
    }
}

/// The little-endian 32-bit value at `at`, as a `u32`.
pub open spec fn le_u32_value(s: Seq<u8>, at: int) -> u32 {
    le_u32(s, at) as u32
}

/// The four little-endian bytes of a `u32`.
pub open spec fn u32_bytes(v: u32) -> Seq<u8> {
    u32_le_bytes(v as nat)
}

/// The eight little-endian bytes of a size, written as a `u64`.
pub open spec fn usize_u64_bytes(v: usize) -> Seq<u8> {
    u64_le_bytes(v as nat)
}

/// A length as a `usize`.
pub open spec fn len_usize(s: Seq<u8>) -> usize {
    s.len() as usize
}

/// The bytes of `s` from `start` on.
pub open spec fn suffix_from(s: Seq<u8>, start: nat) -> Seq<u8> {
    s.subrange(start as int, s.len() as int)
}

/// Reads the little-endian 64-bit value at `at` as a size, or `None` where
/// it does not fit one.
pub fn read_u64_le_usize(src: &[u8], at: usize) -> (r: Option<usize>)
    requires
        at + 8 <= src@.len(),
    ensures
        le_u64(src@, at as int) <= usize::MAX ==> r == Some(le_u64(src@, at as int) as usize),
        le_u64(src@, at as int) > usize::MAX ==> r is None,
{
    let v = read_u64_le(src, at);
    if v as u128 > usize::MAX as u128 {
        None
    } else {
        Some(v as usize)
    }
}

/// Appends the eight little-endian bytes of a size.
pub fn push_usize_u64_le(out: &mut Vec<u8>, v: usize)
    ensures
        final(out)@ == old(out)@ + usize_u64_bytes(v),
{
    push_u64_le(out, v as u64);
}

/// Reading back a written `u32`.
pub proof fn lemma_u32_value_roundtrip(v: u32)
    ensures
        le_u32_value(u32_bytes(v), 0) == v,
        le_u32(u32_bytes(v), 0) == v,
        u32_bytes(v).len() == 4,
{
    lemma_u32_roundtrip(v as nat);
}

/// Reading back a written size.
pub proof fn lemma_usize_u64_roundtrip(v: usize)
    ensures
        le_u64(usize_u64_bytes(v), 0) == v,
        usize_u64_bytes(v).len() == 8,
{
    lemma_u64_roundtrip(v as nat);
}

/// Appending keeps the values read before the end, and the first value
/// read after it is that of the appended bytes.
pub proof fn lemma_le_u32_append(s: Seq<u8>, t: Seq<u8>)
    ensures
        forall|at: int| 0 <= at && at + 4 <= s.len() ==> #[trigger] le_u32(s + t, at) == le_u32(s, at),
        t.len() >= 4 ==> le_u32(s + t, s.len() as int) == le_u32(t, 0),
{
    assert forall|at: int| 0 <= at && at + 4 <= s.len() implies #[trigger] le_u32(s + t, at) == le_u32(s, at) by {
        assert((s + t)[at] == s[at]);
        assert((s + t)[at + 1] == s[at + 1]);
        assert((s + t)[at + 2] == s[at + 2]);
        assert((s + t)[at + 3] == s[at + 3]);
    }
    if t.len() >= 4 {
        let n = s.len() as int;
        assert((s + t)[n] == t[0]);
        assert((s + t)[n + 1] == t[1]);
        assert((s + t)[n + 2] == t[2]);
        assert((s + t)[n + 3] == t[3]);
    }
}

/// Appends `bytes` to `out`.
pub fn extend_bytes(out: &mut Vec<u8>, bytes: &[u8])
    ensures
        final(out)@ == old(out)@ + bytes@,
{
    let mut index: usize = 0;
    while index < bytes.len()
        invariant
            index <= bytes@.len(),
            out@ == old(out)@ + bytes@.subrange(0, index as int),
        decreases bytes@.len() - index,
    {
        out.push(bytes[index]);
        index = index + 1;
        proof {
            assert(out@ =~= old(out)@ + bytes@.subrange(0, index as int));
        }
    }
    proof {
        assert(bytes@.subrange(0, bytes@.len() as int) =~= bytes@);
    }
}

/// The little-endian 64-bit value at `at`, as a size.
pub open spec fn le_u64_usize(s: Seq<u8>, at: int) -> usize {
    le_u64(s, at) as usize
}

/// What a 16-byte header of two 32-bit fields and a 64-bit size, followed
/// by `payload`, reads back as.
pub proof fn lemma_read_header_fields(a: u32, b: u32, c: usize, payload: Seq<u8>)
    ensures
        ({
            let s = u32_bytes(a) + u32_bytes(b) + usize_u64_bytes(c) + payload;
            &&& s.len() == 16 + payload.len()
            &&& le_u32(s, 0) == a
            &&& le_u32_value(s, 0) == a
            &&& le_u32(s, 4) == b
            &&& le_u32_value(s, 4) == b
            &&& le_u64(s, 8) == c
            &&& le_u64_usize(s, 8) == c
            &&& suffix_from(s, 16) == payload
        }),
{
    let x = u32_bytes(a);
    let y = u32_bytes(b);
    let z = usize_u64_bytes(c);
    let s = x + y + z + payload;
    lemma_u32_value_roundtrip(a);
    lemma_u32_value_roundtrip(b);
    lemma_usize_u64_roundtrip(c);
    assert forall|i: int| 0 <= i < 4 implies #[trigger] s[i] == x[i] by {}
    assert forall|i: int| 0 <= i < 4 implies #[trigger] s[4 + i] == y[i] by {}
    assert forall|i: int| 0 <= i < 8 implies #[trigger] s[8 + i] == z[i] by {}
    assert(le_u32(s, 0) == le_u32(x, 0));
    assert(le_u32(s, 4) == le_u32(y, 0));
    assert(le_u32(s, 8) == le_u32(z, 0));
    assert(le_u32(s, 12) == le_u32(z, 4));
    assert(suffix_from(s, 16) =~= payload);
}

} // verus!
