//! Deterministic binary encoding of the messages that travel over the DA
//! layer: fixed field order, little-endian 4-byte lengths in front of
//! variable-length byte strings, and a one-byte discriminant in front of each
//! variant.
use vstd::prelude::*;

verus! {

/// Largest length that a 4-byte length prefix can carry.
pub const MAX_LEN: u64 = 0xffff_ffff;

/// The four little-endian bytes of `n`.
pub open spec fn le_u32(n: u32) -> Seq<u8> {
    seq![(n & 0xff) as u8, ((n >> 8u32) & 0xff) as u8, ((n >> 16u32) & 0xff) as u8, ((n >> 24u32) & 0xff) as u8]
}

/// The value that four little-endian bytes stand for.
pub open spec fn u32_of(b0: u8, b1: u8, b2: u8, b3: u8) -> u32 {
    (b0 as u32) | ((b1 as u32) << 8u32) | ((b2 as u32) << 16u32) | ((b3 as u32) << 24u32)
}

/// A byte string with its length in front.
pub open spec fn enc_bytes(b: Seq<u8>) -> Seq<u8> {
    le_u32(b.len() as u32) + b
}

/// `pre` stands in `s` from position `pos` on.
pub open spec fn stands_at(pre: Seq<u8>, s: Seq<u8>, pos: int) -> bool {
    0 <= pos && pos + pre.len() <= s.len() && s.subrange(pos, pos + pre.len()) == pre
}

proof fn lemma_u32_bits(b0: u8, b1: u8, b2: u8, b3: u8)
    ensures
        le_u32(u32_of(b0, b1, b2, b3)) == seq![b0, b1, b2, b3],
{
    let n = u32_of(b0, b1, b2, b3);
    let (x0, x1, x2, x3) = (b0 as u32, b1 as u32, b2 as u32, b3 as u32);
    assert(x0 < 256 && x1 < 256 && x2 < 256 && x3 < 256);
    assert(n == x0 | (x1 << 8u32) | (x2 << 16u32) | (x3 << 24u32));
    assert((x0 < 256 && x1 < 256 && x2 < 256 && x3 < 256 && n == x0 | (x1 << 8u32) | (x2 << 16u32)
        | (x3 << 24u32)) ==> ((n & 0xff) == x0 && ((n >> 8u32) & 0xff) == x1 && ((n >> 16u32)
        & 0xff) == x2 && ((n >> 24u32) & 0xff) == x3)) by (bit_vector);
    assert(le_u32(n) =~= seq![b0, b1, b2, b3]);
}

/// The four little-endian bytes determine the value.
pub proof fn lemma_le_u32_inj(n: u32, m: u32)
    requires
        le_u32(n) == le_u32(m),
    ensures
        n == m,
{
    assert(le_u32(n)[0] == le_u32(m)[0] && le_u32(n)[1] == le_u32(m)[1] && le_u32(n)[2] == le_u32(
        m,
    )[2] && le_u32(n)[3] == le_u32(m)[3]);
    assert((n & 0xff) < 256 && ((n >> 8u32) & 0xff) < 256 && ((n >> 16u32) & 0xff) < 256 && ((n
        >> 24u32) & 0xff) < 256) by (bit_vector);
    assert((m & 0xff) < 256 && ((m >> 8u32) & 0xff) < 256 && ((m >> 16u32) & 0xff) < 256 && ((m
        >> 24u32) & 0xff) < 256) by (bit_vector);
    assert((n & 0xff) == (m & 0xff) && ((n >> 8u32) & 0xff) == ((m >> 8u32) & 0xff) && ((n >> 16u32)
        & 0xff) == ((m >> 16u32) & 0xff) && ((n >> 24u32) & 0xff) == ((m >> 24u32) & 0xff) ==> n
        == m) by (bit_vector);
}

/// Two byte strings whose encodings both stand at one position are equal.
pub proof fn lemma_enc_bytes_unique(a: Seq<u8>, b: Seq<u8>, s: Seq<u8>, pos: int)
    requires
        a.len() <= MAX_LEN,
        b.len() <= MAX_LEN,
        stands_at(enc_bytes(a), s, pos),
        stands_at(enc_bytes(b), s, pos),
    ensures
        a == b,
{
    assert(enc_bytes(a).subrange(0, 4) =~= le_u32(a.len() as u32));
    assert(enc_bytes(b).subrange(0, 4) =~= le_u32(b.len() as u32));
    assert(s.subrange(pos, pos + 4) =~= enc_bytes(a).subrange(0, 4));
    assert(s.subrange(pos, pos + 4) =~= enc_bytes(b).subrange(0, 4));
    lemma_le_u32_inj(a.len() as u32, b.len() as u32);
    assert(a =~= enc_bytes(a).subrange(4, 4 + a.len() as int));
    assert(b =~= enc_bytes(b).subrange(4, 4 + b.len() as int));
    assert(a =~= s.subrange(pos + 4, pos + 4 + a.len()));
    assert(b =~= s.subrange(pos + 4, pos + 4 + b.len()));
}

/// Appends the four little-endian bytes of `n`.
pub fn write_u32(out: &mut Vec<u8>, n: u32)
    ensures
        final(out)@ == old(out)@ + le_u32(n),
{
    out.push((n & 0xff) as u8);
    out.push(((n >> 8u32) & 0xff) as u8);
    out.push(((n >> 16u32) & 0xff) as u8);
    out.push(((n >> 24u32) & 0xff) as u8);
    assert(out@ =~= old(out)@ + le_u32(n));
}

/// Appends `b` with its length in front.
pub fn write_bytes(out: &mut Vec<u8>, b: &Vec<u8>)
    requires
        b@.len() <= MAX_LEN,
    ensures
        final(out)@ == old(out)@ + enc_bytes(b@),
{
    write_u32(out, b.len() as u32);
    let ghost mid = out@;
    let mut i: usize = 0;
    while i < b.len()
        invariant
            i <= b@.len(),
            mid == old(out)@ + le_u32(b@.len() as u32),
            out@ == mid + b@.subrange(0, i as int),
        decreases b@.len() - i,
    {
        out.push(b[i]);
        i += 1;
        assert(out@ =~= mid + b@.subrange(0, i as int));
    }
    assert(b@.subrange(0, b@.len() as int) =~= b@);
    assert(out@ =~= old(out)@ + enc_bytes(b@));
}

/// Reads a length prefix at `pos`.
pub fn read_u32(s: &Vec<u8>, pos: usize) -> (r: Option<u32>)
    ensures
        r is Some <==> pos + 4 <= s@.len(),
        r matches Some(n) ==> stands_at(le_u32(n), s@, pos as int),
{
    if pos > s.len() || s.len() - pos < 4 {
        return None;
    }
    let (b0, b1, b2, b3) = (s[pos], s[pos + 1], s[pos + 2], s[pos + 3]);
    let n: u32 = (b0 as u32) | ((b1 as u32) << 8u32) | ((b2 as u32) << 16u32) | ((b3 as u32) << 24u32);
    proof {
        lemma_u32_bits(b0, b1, b2, b3);
        assert(s@.subrange(pos as int, pos + 4) =~= seq![b0, b1, b2, b3]);
    }
    Some(n)
}

/// Reads a length-prefixed byte string at `pos`; on success also gives the
/// position just after it.
pub fn read_bytes(s: &Vec<u8>, pos: usize) -> (r: Option<(Vec<u8>, usize)>)
    ensures
        r matches Some((b, p)) ==> b@.len() <= MAX_LEN && p == pos + enc_bytes(b@).len()
            && stands_at(enc_bytes(b@), s@, pos as int),
        r is None ==> forall|b: Seq<u8>| b.len() <= MAX_LEN ==> !stands_at(enc_bytes(b), s@, pos as int),
{
    let len = s.len();
    let n = match read_u32(s, pos) {
        Some(n) => n,
        None => {
            assert forall|b: Seq<u8>| b.len() <= MAX_LEN implies !stands_at(enc_bytes(b), s@, pos as int) by {}
            return None;
        },
    };
    let start = pos + 4;
    if s.len() - start < n as usize {
        assert forall|b: Seq<u8>| b.len() <= MAX_LEN implies !stands_at(enc_bytes(b), s@, pos as int) by {
            if stands_at(enc_bytes(b), s@, pos as int) {
                assert(enc_bytes(b).subrange(0, 4) =~= le_u32(b.len() as u32));
                assert(s@.subrange(pos as int, pos + 4) =~= enc_bytes(b).subrange(0, 4));
                lemma_le_u32_inj(n, b.len() as u32);
            }
        }
        return None;
    }
    let mut out: Vec<u8> = Vec::new();
    let mut i: usize = 0;
    while i < n as usize
        invariant
            start + n <= s@.len(),
            len == s@.len(),
            i <= n,
            out@ == s@.subrange(start as int, start + i),
        decreases n - i,
    {
        out.push(s[start + i]);
        i += 1;
        assert(out@ =~= s@.subrange(start as int, start + i));
    }
    assert(s@.subrange(pos as int, start + n) =~= s@.subrange(pos as int, pos + 4) + out@);
    Some((out, start + n as usize))
}

} // verus!
