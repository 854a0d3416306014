//! The wire frame format: `contents ++ name ++ be64(len(name))`.
//!
//! The trailer is a fixed-width 8-byte big-endian length, so a receiver
//! locates the split points by byte count alone, with no delimiter scanning
//! and no ambiguity with binary content.

use vstd::prelude::*;

verus! {

/// Why a frame failed to decode.
#[derive(Clone, Copy, Debug, PartialEq, Eq, Structural)]
pub enum FrameError {
    /// The input holds fewer than the 8 trailer bytes.
    TooShort,
    /// The declared name length exceeds the bytes that remain
    /// once the trailer is removed.
    NameLength,
}

/// The 8 big-endian bytes of `n`, most significant first.
pub open spec fn be64_bytes(n: u64) -> Seq<u8> {
    seq![
        ((n >> 56) & 0xff) as u8,
        ((n >> 48) & 0xff) as u8,
        ((n >> 40) & 0xff) as u8,
        ((n >> 32) & 0xff) as u8,
        ((n >> 24) & 0xff) as u8,
        ((n >> 16) & 0xff) as u8,
        ((n >> 8) & 0xff) as u8,
        (n & 0xff) as u8,
    ]
}

/// The value read back from 8 big-endian bytes.
pub open spec fn be64_value(s: Seq<u8>) -> u64
    recommends
        s.len() == 8,
{
    (((s[0] as u64) << 56) | ((s[1] as u64) << 48) | ((s[2] as u64) << 40)
        | ((s[3] as u64) << 32) | ((s[4] as u64) << 24) | ((s[5] as u64) << 16)
        | ((s[6] as u64) << 8) | (s[7] as u64)) as u64
}

/// Reading the big-endian bytes of `n` gives `n` back.
pub proof fn lemma_be64_round_trip(n: u64)
    ensures
        be64_value(be64_bytes(n)) == n,
{
    assert(be64_value(be64_bytes(n)) == n) by (bit_vector);
}

fn be64_encode(n: u64) -> (r: Vec<u8>)
    ensures
        r@ == be64_bytes(n),
{
    let mut r: Vec<u8> = Vec::new();
    r.push(((n >> 56) & 0xff) as u8);
    r.push(((n >> 48) & 0xff) as u8);
    r.push(((n >> 40) & 0xff) as u8);
    r.push(((n >> 32) & 0xff) as u8);
    r.push(((n >> 24) & 0xff) as u8);
    r.push(((n >> 16) & 0xff) as u8);
    r.push(((n >> 8) & 0xff) as u8);
    r.push((n & 0xff) as u8);
    proof {
        assert(r@ =~= be64_bytes(n));
    }
    r
}

/// The copy of `v[start..end]`.
pub fn subvec(v: &Vec<u8>, start: usize, end: usize) -> (r: Vec<u8>)
    requires
        start <= end <= v@.len(),
    ensures
        r@ == v@.subrange(start as int, end as int),
{
    let mut r: Vec<u8> = Vec::new();
    let mut i = start;
    while i < end
        invariant
            start <= i <= end <= v@.len(),
            r@ == v@.subrange(start as int, i as int),
        decreases end - i,
    {
        r.push(v[i]);
        proof {
            assert(r@ =~= v@.subrange(start as int, i + 1 as int));
        }
        i = i + 1;
    }
    r
}

/// One wire frame: the contents, then the name, then the name's
/// length as the fixed 8-byte big-endian trailer.
pub open spec fn frame_bytes(name: Seq<u8>, contents: Seq<u8>) -> Seq<u8>
    recommends
        name.len() <= u64::MAX,
{
    contents + name + be64_bytes(name.len() as u64)
}

/// What decoding a byte sequence yields: the name and the contents,
/// or the exact error.
pub open spec fn decode_spec(f: Seq<u8>) -> Result<(Seq<u8>, Seq<u8>), FrameError> {
    if f.len() < 8 {
        Err(FrameError::TooShort)
    } else {
        let n = be64_value(f.subrange(f.len() - 8, f.len() as int)) as int;
        if n > f.len() - 8 {
            Err(FrameError::NameLength)
        } else {
            Ok((f.subrange(f.len() - 8 - n, f.len() - 8), f.subrange(0, f.len() - 8 - n)))
        }
    }
}

/// Builds the frame for one file: `contents ++ name ++ be64(len(name))`.
pub fn encode(name: &Vec<u8>, contents: &Vec<u8>) -> (r: Vec<u8>)
    ensures
        r@ == frame_bytes(name@, contents@),
{
    let mut r = subvec(contents, 0, contents.len());
    let mut i: usize = 0;
    while i < name.len()
        invariant
            0 <= i <= name@.len(),
            r@ == contents@ + name@.subrange(0, i as int),
        decreases name@.len() - i,
    {
        r.push(name[i]);
        proof {
            assert(r@ =~= contents@ + name@.subrange(0, i + 1 as int));
        }
        i = i + 1;
    }
    proof {
        assert(name@.subrange(0, name@.len() as int) =~= name@);
    }
    let trailer = be64_encode(name.len() as u64);
    let mut j: usize = 0;
    while j < trailer.len()
        invariant
            0 <= j <= trailer@.len(),
            trailer@ == be64_bytes(name@.len() as u64),
            r@ == contents@ + name@ + trailer@.subrange(0, j as int),
        decreases trailer@.len() - j,
    {
        r.push(trailer[j]);
        proof {
            assert(r@ =~= contents@ + name@ + trailer@.subrange(0, j + 1 as int));
        }
        j = j + 1;
    }
    proof {
        assert(trailer@.subrange(0, trailer@.len() as int) =~= trailer@);
        assert(r@ =~= frame_bytes(name@, contents@));
    }
    r
}

/// Splits a frame back into `(name, contents)`, or reports exactly why
/// it cannot: too short for the trailer, or a declared name length
/// larger than what remains.
pub fn decode(frame: &Vec<u8>) -> (r: Result<(Vec<u8>, Vec<u8>), FrameError>)
    ensures
        r is Ok <==> decode_spec(frame@) is Ok,
        (r matches Ok(p) ==> decode_spec(frame@) == Ok::<(Seq<u8>, Seq<u8>), FrameError>(
            (p.0@, p.1@),
        )),
        (r matches Err(e) ==> decode_spec(frame@) == Err::<(Seq<u8>, Seq<u8>), FrameError>(e)),
{
    let len = frame.len();
    if len < 8 {
        return Err(FrameError::TooShort);
    }
    let b0 = frame[len - 8];
    let b1 = frame[len - 7];
    let b2 = frame[len - 6];
    let b3 = frame[len - 5];
    let b4 = frame[len - 4];
    let b5 = frame[len - 3];
    let b6 = frame[len - 2];
    let b7 = frame[len - 1];
    let n: u64 = ((b0 as u64) << 56) | ((b1 as u64) << 48) | ((b2 as u64) << 40)
        | ((b3 as u64) << 32) | ((b4 as u64) << 24) | ((b5 as u64) << 16) | ((b6 as u64) << 8)
        | (b7 as u64);
    proof {
        let t = frame@.subrange(len - 8, len as int);
        assert(t[0] == b0 && t[1] == b1 && t[2] == b2 && t[3] == b3 && t[4] == b4 && t[5] == b5
            && t[6] == b6 && t[7] == b7);
        assert(n == be64_value(t));
    }
    let rem = len - 8;
    if n > rem as u64 {
        return Err(FrameError::NameLength);
    }
    let name_len = n as usize;
    let split = rem - name_len;
    let contents = subvec(frame, 0, split);
    let name = subvec(frame, split, rem);
    Ok((name, contents))
}

/// Decoding an encoded frame gives the name and contents back, for
/// every pair of byte sequences, the empty ones included.
pub proof fn lemma_frame_round_trip(name: Seq<u8>, contents: Seq<u8>)
    requires
        name.len() <= u64::MAX,
    ensures
        decode_spec(frame_bytes(name, contents)) == Ok::<(Seq<u8>, Seq<u8>), FrameError>(
            (name, contents),
        ),
{
    let f = frame_bytes(name, contents);
    let nlen = name.len() as u64;
    assert(f.len() == contents.len() + name.len() + 8);
    let t = f.subrange(f.len() - 8, f.len() as int);
    assert(t =~= be64_bytes(nlen));
    lemma_be64_round_trip(nlen);
    assert(be64_value(t) == nlen);
    assert(f.subrange(f.len() - 8 - nlen, f.len() - 8) =~= name);
    assert(f.subrange(0, f.len() - 8 - nlen) =~= contents);
}

/// Decoding fails with the exact error on a frame shorter than the
/// 8-byte trailer, and on one whose declared name length exceeds the
/// remaining byte count.
pub proof fn lemma_decode_rejects(f: Seq<u8>)
    ensures
        f.len() < 8 ==> decode_spec(f) == Err::<(Seq<u8>, Seq<u8>), FrameError>(
            FrameError::TooShort,
        ),
        f.len() >= 8 && be64_value(f.subrange(f.len() - 8, f.len() as int)) as int > f.len() - 8
            ==> decode_spec(f) == Err::<(Seq<u8>, Seq<u8>), FrameError>(FrameError::NameLength),
{
}

} // verus!
