use vstd::prelude::*;
use crate::addr::{IpAddr, SockAddr};
use crate::err::TokenRingError;

verus! {

/// `e` occurs in `s` starting at index `pos`.
pub open spec fn starts_with_at(s: Seq<u8>, pos: int, e: Seq<u8>) -> bool {
    0 <= pos && pos + e.len() <= s.len() && s.subrange(pos, pos + e.len()) == e
}

/// Big-endian bytes of a 16-bit integer.
pub open spec fn be16(v: u16) -> Seq<u8> {
    seq![(v >> 8u16) as u8, v as u8]
}

/// Big-endian bytes of a 32-bit integer.
pub open spec fn be32(v: u32) -> Seq<u8> {
    seq![(v >> 24u32) as u8, (v >> 16u32) as u8, (v >> 8u32) as u8, v as u8]
}

/// Big-endian bytes of a 64-bit integer.
pub open spec fn be64(v: u64) -> Seq<u8> {
    seq![
        (v >> 56u64) as u8, (v >> 48u64) as u8, (v >> 40u64) as u8, (v >> 32u64) as u8,
        (v >> 24u64) as u8, (v >> 16u64) as u8, (v >> 8u64) as u8, v as u8,
    ]
}

/// A byte vector with a 2-byte big-endian length prefix.
pub open spec fn enc_byte_vec(b: Seq<u8>) -> Seq<u8> {
    be16(b.len() as u16) + b
}

/// A byte vector fits a 2-byte length prefix.
pub open spec fn byte_vec_fits(b: Seq<u8>) -> bool {
    b.len() <= u16::MAX
}

/// A string as its length-prefixed UTF-8 bytes.
pub open spec fn enc_string(s: Seq<char>) -> Seq<u8> {
    enc_byte_vec(vstd::utf8::encode_utf8(s))
}

/// A string's UTF-8 bytes fit a 2-byte length prefix.
pub open spec fn string_fits(s: Seq<char>) -> bool {
    byte_vec_fits(vstd::utf8::encode_utf8(s))
}

proof fn lemma_be16(v: u16, b0: u8, b1: u8)
    ensures
        (((v >> 8u16) as u8 as u16) << 8u16) | ((v as u8) as u16) == v,
        ((((b0 as u16) << 8u16) | (b1 as u16)) >> 8u16) as u8 == b0,
        ((((b0 as u16) << 8u16) | (b1 as u16)) as u8) == b1,
{
    assert((((v >> 8u16) as u8 as u16) << 8u16) | ((v as u8) as u16) == v) by (bit_vector);
    assert(((((b0 as u16) << 8u16) | (b1 as u16)) >> 8u16) as u8 == b0) by (bit_vector);
    assert(((((b0 as u16) << 8u16) | (b1 as u16)) as u8) == b1) by (bit_vector);
}

pub fn write_u8(buf: &mut Vec<u8>, v: u8)
    ensures
        final(buf)@ == old(buf)@ + seq![v],
{
    buf.push(v);
}

pub fn write_u16(buf: &mut Vec<u8>, v: u16)
    ensures
        final(buf)@ == old(buf)@ + be16(v),
{
    buf.push((v >> 8u16) as u8);
    buf.push(v as u8);
    assert(buf@ =~= old(buf)@ + be16(v));
}

pub fn write_u32(buf: &mut Vec<u8>, v: u32)
    ensures
        final(buf)@ == old(buf)@ + be32(v),
{
    buf.push((v >> 24u32) as u8);
    buf.push((v >> 16u32) as u8);
    buf.push((v >> 8u32) as u8);
    buf.push(v as u8);
    assert(buf@ =~= old(buf)@ + be32(v));
}

pub fn write_u64(buf: &mut Vec<u8>, v: u64)
    ensures
        final(buf)@ == old(buf)@ + be64(v),
{
    buf.push((v >> 56u64) as u8);
    buf.push((v >> 48u64) as u8);
    buf.push((v >> 40u64) as u8);
    buf.push((v >> 32u64) as u8);
    buf.push((v >> 24u64) as u8);
    buf.push((v >> 16u64) as u8);
    buf.push((v >> 8u64) as u8);
    buf.push(v as u8);
    assert(buf@ =~= old(buf)@ + be64(v));
}

pub fn read_u8(buf: &[u8], pos: usize) -> (r: Result<(u8, usize), TokenRingError>)
    ensures
        match r {
            Ok((v, p)) => p == pos + 1 && starts_with_at(buf@, pos as int, seq![v]),
            Err(e) => e is InvalidPacketHeader && buf@.len() < pos + 1,
        },
{
    if pos < buf.len() {
        assert(buf@.subrange(pos as int, pos + 1) =~= seq![buf@[pos as int]]);
        Ok((buf[pos], pos + 1))
    } else {
        Err(TokenRingError::InvalidPacketHeader)
    }
}

pub fn read_u16(buf: &[u8], pos: usize) -> (r: Result<(u16, usize), TokenRingError>)
    ensures
        match r {
            Ok((v, p)) => p == pos + 2 && starts_with_at(buf@, pos as int, be16(v)),
            Err(e) => e is InvalidPacketHeader,
        },
        forall|v: u16| #[trigger] starts_with_at(buf@, pos as int, be16(v)) ==> r == Ok::<(u16, usize), TokenRingError>((v, (pos + 2) as usize)),
{
    if pos <= buf.len() && buf.len() - pos >= 2 {
        let b0 = buf[pos];
        let b1 = buf[pos + 1];
        let v: u16 = ((b0 as u16) << 8u16) | (b1 as u16);
        proof {
            lemma_be16(v, b0, b1);
            assert(buf@.subrange(pos as int, pos + 2) =~= be16(v));
            assert forall|w: u16| #[trigger] starts_with_at(buf@, pos as int, be16(w)) implies w == v by {
                assert(buf@.subrange(pos as int, pos + 2)[0] == be16(w)[0]);
                assert(buf@.subrange(pos as int, pos + 2)[1] == be16(w)[1]);
                lemma_be16(w, b0, b1);
            }
        }
        Ok((v, pos + 2))
    } else {
        Err(TokenRingError::InvalidPacketHeader)
    }
}


proof fn lemma_be32(v: u32, b0: u8, b1: u8, b2: u8, b3: u8)
    ensures
        ((((v >> 24u32) as u8 as u32) << 24u32) | (((v >> 16u32) as u8 as u32) << 16u32)
            | (((v >> 8u32) as u8 as u32) << 8u32) | ((v as u8) as u32)) == v,
        ({
            let w = ((b0 as u32) << 24u32) | ((b1 as u32) << 16u32) | ((b2 as u32) << 8u32) | (b3 as u32);
            (w >> 24u32) as u8 == b0 && (w >> 16u32) as u8 == b1 && (w >> 8u32) as u8 == b2 && w as u8 == b3
        }),
{
    assert(((((v >> 24u32) as u8 as u32) << 24u32) | (((v >> 16u32) as u8 as u32) << 16u32)
        | (((v >> 8u32) as u8 as u32) << 8u32) | ((v as u8) as u32)) == v) by (bit_vector);
    assert({
        let w = ((b0 as u32) << 24u32) | ((b1 as u32) << 16u32) | ((b2 as u32) << 8u32) | (b3 as u32);
        (w >> 24u32) as u8 == b0 && (w >> 16u32) as u8 == b1 && (w >> 8u32) as u8 == b2 && w as u8 == b3
    }) by (bit_vector);
}

pub open spec fn from_be64(b: Seq<u8>) -> u64 {
    ((b[0] as u64) << 56u64) | ((b[1] as u64) << 48u64) | ((b[2] as u64) << 40u64) | ((b[3] as u64) << 32u64)
        | ((b[4] as u64) << 24u64) | ((b[5] as u64) << 16u64) | ((b[6] as u64) << 8u64) | (b[7] as u64)
}

proof fn lemma_be64_inverse(v: u64)
    ensures
        from_be64(be64(v)) == v,
{
    let b = be64(v);
    assert(b[0] == (v >> 56u64) as u8 && b[1] == (v >> 48u64) as u8 && b[2] == (v >> 40u64) as u8
        && b[3] == (v >> 32u64) as u8 && b[4] == (v >> 24u64) as u8 && b[5] == (v >> 16u64) as u8
        && b[6] == (v >> 8u64) as u8 && b[7] == v as u8);
    assert((((v >> 56u64) as u8 as u64) << 56u64) | (((v >> 48u64) as u8 as u64) << 48u64)
        | (((v >> 40u64) as u8 as u64) << 40u64) | (((v >> 32u64) as u8 as u64) << 32u64)
        | (((v >> 24u64) as u8 as u64) << 24u64) | (((v >> 16u64) as u8 as u64) << 16u64)
        | (((v >> 8u64) as u8 as u64) << 8u64) | ((v as u8) as u64) == v) by (bit_vector);
}

proof fn lemma_be64_of_bytes(b0: u8, b1: u8, b2: u8, b3: u8, b4: u8, b5: u8, b6: u8, b7: u8)
    ensures
        be64(from_be64(seq![b0, b1, b2, b3, b4, b5, b6, b7])) == seq![b0, b1, b2, b3, b4, b5, b6, b7],
{
    let s = seq![b0, b1, b2, b3, b4, b5, b6, b7];
    let w = from_be64(s);
    assert(w == ((b0 as u64) << 56u64) | ((b1 as u64) << 48u64) | ((b2 as u64) << 40u64) | ((b3 as u64) << 32u64)
        | ((b4 as u64) << 24u64) | ((b5 as u64) << 16u64) | ((b6 as u64) << 8u64) | (b7 as u64));
    assert((w >> 56u64) as u8 == b0 && (w >> 48u64) as u8 == b1 && (w >> 40u64) as u8 == b2
        && (w >> 32u64) as u8 == b3 && (w >> 24u64) as u8 == b4 && (w >> 16u64) as u8 == b5
        && (w >> 8u64) as u8 == b6 && w as u8 == b7) by (bit_vector)
        requires
            w == ((b0 as u64) << 56u64) | ((b1 as u64) << 48u64) | ((b2 as u64) << 40u64) | ((b3 as u64) << 32u64)
                | ((b4 as u64) << 24u64) | ((b5 as u64) << 16u64) | ((b6 as u64) << 8u64) | (b7 as u64);
    assert(be64(w) =~= s);
}

pub fn read_u32(buf: &[u8], pos: usize) -> (r: Result<(u32, usize), TokenRingError>)
    ensures
        match r {
            Ok((v, p)) => p == pos + 4 && starts_with_at(buf@, pos as int, be32(v)),
            Err(e) => e is InvalidPacketHeader,
        },
        forall|v: u32| #[trigger] starts_with_at(buf@, pos as int, be32(v)) ==> r == Ok::<(u32, usize), TokenRingError>((v, (pos + 4) as usize)),
{
    if pos <= buf.len() && buf.len() - pos >= 4 {
        let b0 = buf[pos];
        let b1 = buf[pos + 1];
        let b2 = buf[pos + 2];
        let b3 = buf[pos + 3];
        let v: u32 = ((b0 as u32) << 24u32) | ((b1 as u32) << 16u32) | ((b2 as u32) << 8u32) | (b3 as u32);
        proof {
            lemma_be32(v, b0, b1, b2, b3);
            assert(buf@.subrange(pos as int, pos + 4) =~= be32(v));
            assert forall|w: u32| #[trigger] starts_with_at(buf@, pos as int, be32(w)) implies w == v by {
                let sub = buf@.subrange(pos as int, pos + 4);
                assert(sub[0] == be32(w)[0] && sub[1] == be32(w)[1] && sub[2] == be32(w)[2] && sub[3] == be32(w)[3]);
                lemma_be32(w, b0, b1, b2, b3);
            }
        }
        Ok((v, pos + 4))
    } else {
        Err(TokenRingError::InvalidPacketHeader)
    }
}

pub fn read_u64(buf: &[u8], pos: usize) -> (r: Result<(u64, usize), TokenRingError>)
    ensures
        match r {
            Ok((v, p)) => p == pos + 8 && starts_with_at(buf@, pos as int, be64(v)),
            Err(e) => e is InvalidPacketHeader,
        },
        forall|v: u64| #[trigger] starts_with_at(buf@, pos as int, be64(v)) ==> r == Ok::<(u64, usize), TokenRingError>((v, (pos + 8) as usize)),
{
    if pos <= buf.len() && buf.len() - pos >= 8 {
        let ghost sub = buf@.subrange(pos as int, pos + 8);
        let v: u64 = ((buf[pos] as u64) << 56u64) | ((buf[pos + 1] as u64) << 48u64)
            | ((buf[pos + 2] as u64) << 40u64) | ((buf[pos + 3] as u64) << 32u64)
            | ((buf[pos + 4] as u64) << 24u64) | ((buf[pos + 5] as u64) << 16u64)
            | ((buf[pos + 6] as u64) << 8u64) | (buf[pos + 7] as u64);
        proof {
            assert(sub =~= seq![sub[0], sub[1], sub[2], sub[3], sub[4], sub[5], sub[6], sub[7]]);
            assert(v == from_be64(sub));
            lemma_be64_of_bytes(sub[0], sub[1], sub[2], sub[3], sub[4], sub[5], sub[6], sub[7]);
            assert forall|w: u64| #[trigger] starts_with_at(buf@, pos as int, be64(w)) implies w == v by {
                lemma_be64_inverse(w);
            }
        }
        Ok((v, pos + 8))
    } else {
        Err(TokenRingError::InvalidPacketHeader)
    }
}

/// Reads `n` raw bytes.
pub fn read_bytes(buf: &[u8], pos: usize, n: usize) -> (r: Result<(Vec<u8>, usize), TokenRingError>)
    ensures
        match r {
            Ok((v, p)) => v@.len() == n && p == pos + n && starts_with_at(buf@, pos as int, v@),
            Err(e) => e is InvalidPacketHeader && (pos > buf@.len() || buf@.len() - pos < n),
        },
{
    if pos <= buf.len() && buf.len() - pos >= n {
        let mut out: Vec<u8> = Vec::with_capacity(n);
        let mut i: usize = 0;
        while i < n
            invariant
                pos + n <= buf.len(),
                i <= n,
                out@ =~= buf@.subrange(pos as int, pos + i),
            decreases n - i,
        {
            out.push(buf[pos + i]);
            i = i + 1;
        }
        Ok((out, pos + n))
    } else {
        Err(TokenRingError::InvalidPacketHeader)
    }
}

/// Appends the bytes of a fixed-length array.
pub fn write_byte_arr<const N: usize>(buf: &mut Vec<u8>, arr: &[u8; N])
    ensures
        final(buf)@ == old(buf)@ + arr@,
{
    write_bytes(buf, arr.as_slice());
}

/// Reads `N` bytes at `pos` into an array.
pub fn read_byte_arr<const N: usize>(buf: &[u8], pos: usize) -> (r: Result<([u8; N], usize), TokenRingError>)
    ensures
        match r {
            Ok((a, p)) => p == pos + N && starts_with_at(buf@, pos as int, a@),
            Err(e) => e is InvalidPacketHeader && (pos > buf@.len() || buf@.len() - pos < N),
        },
{
    if pos <= buf.len() && buf.len() - pos >= N {
        let mut arr: [u8; N] = [0u8; N];
        let mut i: usize = 0;
        while i < N
            invariant
                pos + N <= buf.len(),
                i <= N,
                arr@.len() == N,
                forall|j: int| 0 <= j < i ==> arr@[j] == buf@[pos + j],
            decreases N - i,
        {
            arr[i] = buf[pos + i];
            i = i + 1;
        }
        assert(buf@.subrange(pos as int, pos + N) =~= arr@);
        Ok((arr, pos + N))
    } else {
        Err(TokenRingError::InvalidPacketHeader)
    }
}

/// Appends raw bytes.
pub fn write_bytes(buf: &mut Vec<u8>, b: &[u8])
    ensures
        final(buf)@ == old(buf)@ + b@,
{
    let mut i: usize = 0;
    while i < b.len()
        invariant
            i <= b@.len(),
            buf@ =~= old(buf)@ + b@.subrange(0, i as int),
        decreases b@.len() - i,
    {
        buf.push(b[i]);
        i = i + 1;
    }
    assert(b@.subrange(0, b@.len() as int) =~= b@);
}

/// Writes a byte vector with its 2-byte length prefix; fails if it is longer than 65535 bytes.
pub fn write_byte_vec(buf: &mut Vec<u8>, vec: &[u8]) -> (r: Result<(), TokenRingError>)
    ensures
        r is Ok <==> byte_vec_fits(vec@),
        r is Ok ==> final(buf)@ == old(buf)@ + enc_byte_vec(vec@),
        r matches Err(e) ==> e is InvalidPacketHeader && final(buf)@ == old(buf)@,
{
    if vec.len() > 65535 {
        return Err(TokenRingError::InvalidPacketHeader);
    }
    write_u16(buf, vec.len() as u16);
    write_bytes(buf, vec);
    assert(buf@ =~= old(buf)@ + enc_byte_vec(vec@));
    Ok(())
}

/// Reads a byte vector with its 2-byte length prefix.
pub fn read_byte_vec(buf: &[u8], pos: usize) -> (r: Result<(Vec<u8>, usize), TokenRingError>)
    ensures
        match r {
            Ok((v, p)) => byte_vec_fits(v@) && p == pos + enc_byte_vec(v@).len()
                && starts_with_at(buf@, pos as int, enc_byte_vec(v@)),
            Err(e) => e is InvalidPacketHeader,
        },
        forall|m: Seq<u8>| byte_vec_fits(m) && #[trigger] starts_with_at(buf@, pos as int, enc_byte_vec(m))
            ==> (r matches Ok((v, p)) && v@ == m),
{
    proof {
        assert forall|m: Seq<u8>| byte_vec_fits(m) && #[trigger] starts_with_at(buf@, pos as int, enc_byte_vec(m))
            implies starts_with_at(buf@, pos as int, be16(m.len() as u16))
                && buf@.len() - (pos + 2) >= m.len() by {
            let e = enc_byte_vec(m);
            assert(buf@.subrange(pos as int, pos + 2) =~= e.subrange(0, 2));
            assert(e.subrange(0, 2) =~= be16(m.len() as u16));
        }
    }
    let (len, at1) = match read_u16(buf, pos) {
        Ok(x) => x,
        Err(e) => { return Err(e); },
    };
    let (v, at2) = match read_bytes(buf, at1, len as usize) {
        Ok(x) => x,
        Err(e) => { return Err(e); },
    };
    proof {
        assert(v@.len() as u16 == len);
        assert(buf@.subrange(pos as int, at2 as int) =~= buf@.subrange(pos as int, at1 as int) + buf@.subrange(at1 as int, at2 as int));
        assert(starts_with_at(buf@, pos as int, enc_byte_vec(v@)));
        assert forall|m: Seq<u8>| byte_vec_fits(m) && #[trigger] starts_with_at(buf@, pos as int, enc_byte_vec(m))
            implies v@ == m by {
            let e = enc_byte_vec(m);
            assert(buf@.subrange(pos as int, pos + 2) =~= e.subrange(0, 2));
            assert(e.subrange(0, 2) =~= be16(m.len() as u16));
            assert(starts_with_at(buf@, pos as int, be16(m.len() as u16)));
            assert(m.len() as u16 == len);
            assert(m =~= e.subrange(2, e.len() as int));
            assert(v@ =~= buf@.subrange(pos + 2, pos + 2 + len));
            assert(buf@.subrange(pos + 2, pos + 2 + len) =~= e.subrange(2, e.len() as int));
        }
    }
    Ok((v, at2))
}

/// Relies on `String::from_utf8`: it accepts exactly the valid UTF-8 byte sequences
/// and yields the characters they encode.
#[verifier::external_body]
fn string_from_utf8(b: Vec<u8>) -> (r: Option<String>)
    ensures
        r is Some <==> vstd::utf8::valid_utf8(b@),
        r matches Some(s) ==> s@ == vstd::utf8::decode_utf8(b@),
{
    String::from_utf8(b).ok()
}

/// Writes a string as length-prefixed UTF-8; fails if it takes more than 65535 bytes.
pub fn write_string(buf: &mut Vec<u8>, s: &String) -> (r: Result<(), TokenRingError>)
    ensures
        r is Ok <==> string_fits(s@),
        r is Ok ==> final(buf)@ == old(buf)@ + enc_string(s@),
        r matches Err(e) ==> e is InvalidPacketHeader && final(buf)@ == old(buf)@,
{
    let bytes = s.as_str().as_bytes();
    write_byte_vec(buf, bytes)
}

/// Reads a length-prefixed UTF-8 string.
pub fn read_string(buf: &[u8], pos: usize) -> (r: Result<(String, usize), TokenRingError>)
    ensures
        match r {
            Ok((v, p)) => string_fits(v@) && p == pos + enc_string(v@).len()
                && starts_with_at(buf@, pos as int, enc_string(v@)),
            Err(e) => e is InvalidPacketHeader,
        },
        forall|m: Seq<char>| string_fits(m) && #[trigger] starts_with_at(buf@, pos as int, enc_string(m))
            ==> (r matches Ok((v, p)) && v@ == m),
{
    broadcast use vstd::utf8::encode_utf8_valid_utf8, vstd::utf8::encode_utf8_decode_utf8;
    let (bytes, p) = match read_byte_vec(buf, pos) {
        Ok(x) => x,
        Err(e) => {
            proof {
                assert forall|m: Seq<char>| string_fits(m) && #[trigger] starts_with_at(buf@, pos as int, enc_string(m))
                    implies false by {
                    assert(starts_with_at(buf@, pos as int, enc_byte_vec(vstd::utf8::encode_utf8(m))));
                }
            }
            return Err(e);
        },
    };
    let ghost b = bytes@;
    proof {
        assert forall|m: Seq<char>| string_fits(m) && #[trigger] starts_with_at(buf@, pos as int, enc_string(m))
            implies b == vstd::utf8::encode_utf8(m) by {
            assert(starts_with_at(buf@, pos as int, enc_byte_vec(vstd::utf8::encode_utf8(m))));
        }
    }
    match string_from_utf8(bytes) {
        Some(st) => {
            proof {
                vstd::utf8::decode_utf8_encode_utf8(b);
            }
            Ok((st, p))
        },
        None => Err(TokenRingError::InvalidPacketHeader),
    }
}

/// An occurrence of `a + c` is an occurrence of `a` followed by one of `c`, and back.
pub proof fn lemma_starts_with_concat(s: Seq<u8>, pos: int, a: Seq<u8>, c: Seq<u8>)
    ensures
        starts_with_at(s, pos, a + c) <==> (starts_with_at(s, pos, a) && starts_with_at(s, pos + a.len(), c)),
{
    let n: int = (a.len() + c.len()) as int;
    if starts_with_at(s, pos, a + c) {
        let t = s.subrange(pos, pos + n);
        assert(t =~= a + c);
        assert(s.subrange(pos, pos + a.len()) =~= t.subrange(0, a.len() as int));
        assert(t.subrange(0, a.len() as int) =~= a);
        assert(s.subrange(pos + a.len(), pos + n) =~= t.subrange(a.len() as int, n));
        assert(t.subrange(a.len() as int, n) =~= c);
    }
    if starts_with_at(s, pos, a) && starts_with_at(s, pos + a.len(), c) {
        assert(s.subrange(pos, pos + n) =~= s.subrange(pos, pos + a.len()) + s.subrange(pos + a.len(), pos + n));
        assert(s.subrange(pos, pos + n) =~= a + c);
    }
}

/// Copies a byte vector.
pub fn copy_bytes(v: &Vec<u8>) -> (r: Vec<u8>)
    ensures
        r@ == v@,
{
    let mut r: Vec<u8> = Vec::new();
    write_bytes(&mut r, v.as_slice());
    assert(r@ =~= v@);
    r
}

/// The high and low halves of a 128-bit integer.
pub open spec fn u128_halves(v: u128) -> (u64, u64) {
    ((v >> 64u128) as u64, v as u64)
}

proof fn lemma_u128_halves(v: u128, hi: u64, lo: u64)
    ensures
        ((((v >> 64u128) as u64) as u128) << 64u128) | (((v as u64) as u128)) == v,
        (((((hi as u128) << 64u128) | (lo as u128)) >> 64u128) as u64) == hi,
        ((((hi as u128) << 64u128) | (lo as u128)) as u64) == lo,
{
    assert(((((v >> 64u128) as u64) as u128) << 64u128) | (((v as u64) as u128)) == v) by (bit_vector);
    assert((((((hi as u128) << 64u128) | (lo as u128)) >> 64u128) as u64) == hi) by (bit_vector);
    assert(((((hi as u128) << 64u128) | (lo as u128)) as u64) == lo) by (bit_vector);
}

/// A socket address: tag 0 and 4 octets for IPv4, tag 1 and 16 octets for IPv6, then
/// the port; all big-endian.
pub open spec fn enc_sock_addr(a: SockAddr) -> Seq<u8> {
    match a.ip {
        IpAddr::V4(ip) => seq![0u8] + be32(ip) + be16(a.port),
        IpAddr::V6(ip) => seq![1u8] + be64(u128_halves(ip).0) + be64(u128_halves(ip).1) + be16(a.port),
    }
}

/// Appends the encoding of a socket address.
pub fn write_sock_addr(buf: &mut Vec<u8>, addr: &SockAddr)
    ensures
        final(buf)@ == old(buf)@ + enc_sock_addr(*addr),
{
    match addr.ip {
        IpAddr::V4(ip) => {
            write_u8(buf, 0);
            write_u32(buf, ip);
        },
        IpAddr::V6(ip) => {
            write_u8(buf, 1);
            write_u64(buf, (ip >> 64u128) as u64);
            write_u64(buf, ip as u64);
        },
    }
    write_u16(buf, addr.port);
    assert(buf@ =~= old(buf)@ + enc_sock_addr(*addr));
}

/// Decodes a socket address at `pos`; succeeds exactly when the bytes there start with
/// the encoding of one.
pub fn read_sock_addr(buf: &[u8], pos: usize) -> (r: Result<(SockAddr, usize), TokenRingError>)
    ensures
        match r {
            Ok((a, p)) => p == pos + enc_sock_addr(a).len() && starts_with_at(buf@, pos as int, enc_sock_addr(a)),
            Err(e) => e is InvalidPacketHeader,
        },
        forall|m: SockAddr| #[trigger] starts_with_at(buf@, pos as int, enc_sock_addr(m)) ==> (r matches Ok((a, p)) && a == m),
{
    let ghost b = buf@;
    proof {
        assert forall|m: SockAddr| #[trigger] starts_with_at(b, pos as int, enc_sock_addr(m))
            implies pos < b.len() && b[pos as int] == enc_sock_addr(m)[0] && match m.ip {
                IpAddr::V4(ip) => starts_with_at(b, pos + 1, be32(ip)) && starts_with_at(b, pos + 5, be16(m.port)),
                IpAddr::V6(ip) => starts_with_at(b, pos + 1, be64(u128_halves(ip).0))
                    && starts_with_at(b, pos + 9, be64(u128_halves(ip).1)) && starts_with_at(b, pos + 17, be16(m.port)),
            } by {
            assert(b.subrange(pos as int, pos + enc_sock_addr(m).len())[0] == b[pos as int]);
            match m.ip {
                IpAddr::V4(ip) => {
                    lemma_starts_with_concat(b, pos as int, seq![0u8] + be32(ip), be16(m.port));
                    lemma_starts_with_concat(b, pos as int, seq![0u8], be32(ip));
                },
                IpAddr::V6(ip) => {
                    let h = be64(u128_halves(ip).0);
                    let l = be64(u128_halves(ip).1);
                    lemma_starts_with_concat(b, pos as int, seq![1u8] + h + l, be16(m.port));
                    lemma_starts_with_concat(b, pos as int, seq![1u8] + h, l);
                    lemma_starts_with_concat(b, pos as int, seq![1u8], h);
                },
            }
        }
    }
    let (tag, at1) = read_u8(buf, pos)?;
    assert(b[pos as int] == tag) by {
        assert(b.subrange(pos as int, pos + 1)[0] == b[pos as int]);
    }
    if tag == 0 {
        let (ip, at2) = read_u32(buf, at1)?;
        let (port, at3) = read_u16(buf, at2)?;
        let a = SockAddr { ip: IpAddr::V4(ip), port };
        proof {
            assert(b.subrange(pos as int, pos + 1) =~= seq![0u8]);
            lemma_starts_with_concat(b, pos as int, seq![0u8], be32(ip));
            lemma_starts_with_concat(b, pos as int, seq![0u8] + be32(ip), be16(port));
        }
        Ok((a, at3))
    } else if tag == 1 {
        let (hi, at2) = read_u64(buf, at1)?;
        let (lo, at3) = read_u64(buf, at2)?;
        let (port, at4) = read_u16(buf, at3)?;
        let ip: u128 = ((hi as u128) << 64u128) | (lo as u128);
        let a = SockAddr { ip: IpAddr::V6(ip), port };
        proof {
            lemma_u128_halves(ip, hi, lo);
            assert(u128_halves(ip) == (hi, lo));
            assert(b.subrange(pos as int, pos + 1) =~= seq![1u8]);
            lemma_starts_with_concat(b, pos as int, seq![1u8], be64(hi));
            lemma_starts_with_concat(b, pos as int, seq![1u8] + be64(hi), be64(lo));
            lemma_starts_with_concat(b, pos as int, seq![1u8] + be64(hi) + be64(lo), be16(port));
            assert forall|m: SockAddr| #[trigger] starts_with_at(b, pos as int, enc_sock_addr(m)) implies m == a by {
                if let IpAddr::V6(mip) = m.ip {
                    lemma_u128_halves(mip, hi, lo);
                }
            }
        }
        Ok((a, at4))
    } else {
        Err(TokenRingError::InvalidPacketHeader)
    }
}

/// The number of bytes that encode the address part of `addr` (octets and port).
pub fn get_sock_addr_size(addr: &SockAddr) -> (r: usize)
    ensures
        r == enc_sock_addr(*addr).len() - 1,
{
    (match addr.ip {
        IpAddr::V4(_) => 4,
        IpAddr::V6(_) => 16,
    }) + 2
}

/// A value with a deterministic byte encoding.
pub trait Serializable: Sized + View {
    /// The values that have an encoding (every length fits its prefix).
    spec fn wf_view(v: Self::V) -> bool;

    /// The bytes that encode a value.
    spec fn encoding(v: Self::V) -> Seq<u8>;

    /// Appends the encoding of `self`; fails exactly when `self` has none.
    fn write(&self, buf: &mut Vec<u8>) -> (r: Result<(), TokenRingError>)
        ensures
            r is Ok <==> Self::wf_view(self@),
            r is Ok ==> final(buf)@ == old(buf)@ + Self::encoding(self@),
            r matches Err(e) ==> e is InvalidPacketHeader,
    ;

    /// Decodes a value at `pos`; returns it with the position after it.
    /// Succeeds exactly when the bytes at `pos` start with an encoding.
    fn read(buf: &[u8], pos: usize) -> (r: Result<(Self, usize), TokenRingError>)
        ensures
            match r {
                Ok((v, p)) => Self::wf_view(v@) && p == pos + Self::encoding(v@).len()
                    && starts_with_at(buf@, pos as int, Self::encoding(v@)),
                Err(e) => e is InvalidPacketHeader,
            },
            forall|m: Self::V| Self::wf_view(m) && #[trigger] starts_with_at(buf@, pos as int, Self::encoding(m))
                ==> (r matches Ok((v, p)) && v@ == m),
    ;

    /// The number of bytes that encode `self`.
    fn size(&self) -> (r: usize)
        requires
            Self::wf_view(self@),
            Self::encoding(self@).len() <= usize::MAX,
        ensures
            r == Self::encoding(self@).len(),
    ;
}


/// The views of a sequence of values.
pub open spec fn views<T: View>(v: Seq<T>) -> Seq<T::V> {
    v.map_values(|x: T| x@)
}

/// The elements' encodings, one after another.
pub open spec fn enc_list<T: Serializable>(s: Seq<T::V>) -> Seq<u8>
    decreases s.len(),
{
    if s.len() == 0 {
        Seq::empty()
    } else {
        T::encoding(s[0]) + enc_list::<T>(s.drop_first())
    }
}

/// A vector: a 4-byte big-endian count, then the elements.
pub open spec fn enc_vec<T: Serializable>(s: Seq<T::V>) -> Seq<u8> {
    be32(s.len() as u32) + enc_list::<T>(s)
}

/// Every element has an encoding and the count fits its 4-byte prefix.
pub open spec fn vec_fits<T: Serializable>(s: Seq<T::V>) -> bool {
    s.len() <= u32::MAX && forall|i: int| 0 <= i < s.len() ==> #[trigger] T::wf_view(s[i])
}

proof fn lemma_enc_list_push<T: Serializable>(s: Seq<T::V>, x: T::V)
    ensures
        enc_list::<T>(s.push(x)) == enc_list::<T>(s) + T::encoding(x),
    decreases s.len(),
{
    if s.len() == 0 {
        assert(s.push(x).drop_first() =~= Seq::<T::V>::empty());
        assert(s.push(x)[0] == x);
        assert(enc_list::<T>(Seq::<T::V>::empty()) =~= Seq::<u8>::empty());
        assert(enc_list::<T>(s) =~= Seq::<u8>::empty());
        assert(enc_list::<T>(s.push(x)) =~= T::encoding(x));
    } else {
        assert(s.push(x).drop_first() =~= s.drop_first().push(x));
        lemma_enc_list_push::<T>(s.drop_first(), x);
        assert(enc_list::<T>(s.push(x)) =~= enc_list::<T>(s) + T::encoding(x));
    }
}

proof fn lemma_enc_list_prefix_len<T: Serializable>(s: Seq<T::V>, i: int, j: int)
    requires
        0 <= i <= j <= s.len(),
    ensures
        enc_list::<T>(s.take(i)).len() <= enc_list::<T>(s.take(j)).len(),
    decreases j - i,
{
    if i < j {
        lemma_enc_list_prefix_len::<T>(s, i, j - 1);
        assert(s.take(j) =~= s.take(j - 1).push(s[j - 1]));
        lemma_enc_list_push::<T>(s.take(j - 1), s[j - 1]);
    }
}

/// The number of bytes that encode a vector.
pub fn vec_size<T: Serializable>(vec: &Vec<T>) -> (r: usize)
    requires
        vec_fits::<T>(views(vec@)),
        enc_vec::<T>(views(vec@)).len() <= usize::MAX,
    ensures
        r == enc_vec::<T>(views(vec@)).len(),
{
    let ghost s = views(vec@);
    let mut total: usize = 4;
    let mut i: usize = 0;
    while i < vec.len()
        invariant
            s == views(vec@),
            vec_fits::<T>(s),
            enc_vec::<T>(s).len() <= usize::MAX,
            i <= vec@.len(),
            total == 4 + enc_list::<T>(s.take(i as int)).len(),
        decreases vec@.len() - i,
    {
        proof {
            assert(s.take(i + 1) =~= s.take(i as int).push(s[i as int]));
            lemma_enc_list_push::<T>(s.take(i as int), s[i as int]);
            lemma_enc_list_prefix_len::<T>(s, i + 1, s.len() as int);
            assert(s.take(s.len() as int) =~= s);
            assert(s[i as int] == vec@[i as int]@);
            assert(T::wf_view(s[i as int]));
        }
        let n = vec[i].size();
        total = total + n;
        i = i + 1;
    }
    assert(s.take(i as int) =~= s);
    total
}

/// Writes a vector: its count, then each element; fails exactly when the count does not
/// fit 4 bytes or an element has no encoding.
pub fn write_vec<T: Serializable>(buf: &mut Vec<u8>, vec: &Vec<T>) -> (r: Result<(), TokenRingError>)
    ensures
        r is Ok <==> vec_fits::<T>(views(vec@)),
        r is Ok ==> final(buf)@ == old(buf)@ + enc_vec::<T>(views(vec@)),
        r matches Err(e) ==> e is InvalidPacketHeader,
{
    if vec.len() > 4294967295 {
        return Err(TokenRingError::InvalidPacketHeader);
    }
    write_u32(buf, vec.len() as u32);
    let ghost start = buf@;
    let mut i: usize = 0;
    while i < vec.len()
        invariant
            i <= vec@.len(),
            buf@ == start + enc_list::<T>(views(vec@.subrange(0, i as int))),
            forall|j: int| 0 <= j < i ==> #[trigger] T::wf_view(vec@[j]@),
        decreases vec@.len() - i,
    {
        match vec[i].write(buf) {
            Ok(()) => {},
            Err(e) => {
                assert(!vec_fits::<T>(views(vec@))) by {
                    assert(views(vec@)[i as int] == vec@[i as int]@);
                }
                return Err(e);
            },
        }
        proof {
            let pre = views(vec@.subrange(0, i as int));
            assert(views(vec@.subrange(0, i + 1)) =~= pre.push(vec@[i as int]@));
            lemma_enc_list_push::<T>(pre, vec@[i as int]@);
        }
        i = i + 1;
    }
    proof {
        assert(vec@.subrange(0, i as int) =~= vec@);
        assert forall|j: int| 0 <= j < views(vec@).len() implies #[trigger] T::wf_view(views(vec@)[j]) by {
            assert(views(vec@)[j] == vec@[j]@);
        }
    }
    assert(buf@ =~= old(buf)@ + enc_vec::<T>(views(vec@)));
    Ok(())
}

/// Reads a vector at `pos`; succeeds exactly when the bytes there start with the
/// encoding of one.
#[verifier::rlimit(40)]
pub fn read_vec<T: Serializable>(buf: &[u8], pos: usize) -> (r: Result<(Vec<T>, usize), TokenRingError>)
    ensures
        match r {
            Ok((v, p)) => vec_fits::<T>(views(v@)) && p == pos + enc_vec::<T>(views(v@)).len()
                && starts_with_at(buf@, pos as int, enc_vec::<T>(views(v@))),
            Err(e) => e is InvalidPacketHeader,
        },
        forall|m: Seq<T::V>| vec_fits::<T>(m) && #[trigger] starts_with_at(buf@, pos as int, enc_vec::<T>(m))
            ==> (r matches Ok((v, p)) && views(v@) == m),
{
    let ghost b = buf@;
    proof {
        assert forall|m: Seq<T::V>| vec_fits::<T>(m) && #[trigger] starts_with_at(b, pos as int, enc_vec::<T>(m))
            implies starts_with_at(b, pos as int, be32(m.len() as u32))
                && starts_with_at(b, pos + 4, enc_list::<T>(m)) by {
            lemma_starts_with_concat(b, pos as int, be32(m.len() as u32), enc_list::<T>(m));
        }
    }
    let (n, at0) = read_u32(buf, pos)?;
    let mut items: Vec<T> = Vec::new();
    let mut p: usize = at0;
    let mut i: u32 = 0;
    proof {
        assert(views(items@) =~= Seq::<T::V>::empty());
        assert(enc_list::<T>(views(items@)) =~= Seq::<u8>::empty());
        assert(b.subrange(at0 as int, at0 as int) =~= Seq::<u8>::empty());
        assert forall|m: Seq<T::V>| vec_fits::<T>(m) && #[trigger] starts_with_at(b, pos as int, enc_vec::<T>(m))
            implies m.len() == n && views(items@) == m.take(0)
                && starts_with_at(b, p as int, enc_list::<T>(m.skip(0))) by {
            assert(m.take(0) =~= Seq::<T::V>::empty());
            assert(m.skip(0) =~= m);
        }
    }
    while i < n
        invariant
            b == buf@,
            at0 == pos + 4,
            at0 <= p <= b.len(),
            items@.len() == i,
            i <= n,
            forall|j: int| 0 <= j < i ==> #[trigger] T::wf_view(items@[j]@),
            starts_with_at(b, at0 as int, enc_list::<T>(views(items@))),
            p == at0 + enc_list::<T>(views(items@)).len(),
            forall|m: Seq<T::V>| vec_fits::<T>(m) && #[trigger] starts_with_at(b, pos as int, enc_vec::<T>(m))
                ==> m.len() == n && views(items@) == m.take(i as int)
                    && starts_with_at(b, p as int, enc_list::<T>(m.skip(i as int))),
        decreases n - i,
    {
        proof {
            assert forall|m: Seq<T::V>| vec_fits::<T>(m) && #[trigger] starts_with_at(b, pos as int, enc_vec::<T>(m))
                implies starts_with_at(b, p as int, T::encoding(m[i as int]))
                    && starts_with_at(b, p + T::encoding(m[i as int]).len(), enc_list::<T>(m.skip(i + 1))) by {
                let rest = m.skip(i as int);
                assert(rest.drop_first() =~= m.skip(i + 1));
                assert(rest[0] == m[i as int]);
                lemma_starts_with_concat(b, p as int, T::encoding(rest[0]), enc_list::<T>(rest.drop_first()));
                assert(T::wf_view(m[i as int]));
            }
        }
        let (x, np) = T::read(buf, p)?;
        proof {
            lemma_enc_list_push::<T>(views(items@), x@);
            lemma_starts_with_concat(b, at0 as int, enc_list::<T>(views(items@)), T::encoding(x@));
            assert(views(items@.push(x)) =~= views(items@).push(x@));
            assert forall|m: Seq<T::V>| vec_fits::<T>(m) && #[trigger] starts_with_at(b, pos as int, enc_vec::<T>(m))
                implies views(items@).push(x@) == m.take(i + 1) by {
                assert(m.take(i + 1) =~= m.take(i as int).push(m[i as int]));
            }
        }
        items.push(x);
        p = np;
        i = i + 1;
    }
    proof {
        lemma_starts_with_concat(b, pos as int, be32(n), enc_list::<T>(views(items@)));
        assert forall|j: int| 0 <= j < views(items@).len() implies #[trigger] T::wf_view(views(items@)[j]) by {
            assert(views(items@)[j] == items@[j]@);
        }
        assert(views(items@).len() as u32 == n);
        assert forall|m: Seq<T::V>| vec_fits::<T>(m) && #[trigger] starts_with_at(b, pos as int, enc_vec::<T>(m))
            implies views(items@) == m by {
            assert(m.take(n as int) =~= m);
        }
    }
    Ok((items, p))
}

} // verus!
