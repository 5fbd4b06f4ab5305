//! Binary encoding of the chain's records.
//!
//! Each encoded type `T` has a spec encoding `ser_t(x)`, a spec function
//! `end_t(s, p)` giving where a well-formed encoding starting at `p` ends, a
//! writer that appends `ser_t(x)`, and a reader that succeeds exactly where
//! `end_t` does and returns a value whose encoding is the bytes it consumed.
//! The `lemma_*_end` lemmas show that the encoding of any value is read back
//! to its full length, which gives the round trip.
use vstd::prelude::*;

verus! {

/// `t` occurs in `s` at position `p`.
pub open spec fn at(s: Seq<u8>, p: int, t: Seq<u8>) -> bool {
    0 <= p && p + t.len() <= s.len() && s.subrange(p, p + t.len()) == t
}

/// A reader that started at `p` and stopped at `q` consumed exactly `t`.
pub open spec fn read_ok(s: Seq<u8>, p: int, q: int, t: Seq<u8>) -> bool {
    at(s, p, t) && q == p + t.len()
}

pub proof fn lemma_at_join(s: Seq<u8>, p: int, a: Seq<u8>, b: Seq<u8>)
    requires
        at(s, p, a),
        at(s, p + a.len(), b),
    ensures
        at(s, p, a + b),
{
    assert forall|i: int| 0 <= i < (a + b).len() implies #[trigger] s.subrange(
        p,
        p + (a + b).len(),
    )[i] == (a + b)[i] by {
        if i < a.len() {
            assert(s.subrange(p, p + a.len())[i] == a[i]);
        } else {
            assert(s.subrange(p + a.len(), p + a.len() + b.len())[i - a.len()] == b[i - a.len()]);
        }
    }
    assert(s.subrange(p, p + (a + b).len()) =~= a + b);
}

pub proof fn lemma_at_split(s: Seq<u8>, p: int, a: Seq<u8>, b: Seq<u8>)
    requires
        at(s, p, a + b),
    ensures
        at(s, p, a),
        at(s, p + a.len(), b),
{
    let w = s.subrange(p, p + (a + b).len());
    assert forall|i: int| 0 <= i < a.len() implies #[trigger] s.subrange(p, p + a.len())[i]
        == a[i] by {
        assert(w[i] == (a + b)[i]);
    }
    assert forall|i: int| 0 <= i < b.len() implies #[trigger] s.subrange(
        p + a.len(),
        p + a.len() + b.len(),
    )[i] == b[i] by {
        assert(w[i + a.len()] == (a + b)[i + a.len()]);
    }
    assert(s.subrange(p, p + a.len()) =~= a);
    assert(s.subrange(p + a.len(), p + a.len() + b.len()) =~= b);
}

// ---------------------------------------------------------------- bytes

pub open spec fn ser_u8(x: u8) -> Seq<u8> {
    seq![x]
}

/// A one-byte tag below `n`.
pub open spec fn end_tag(s: Seq<u8>, p: int, n: u8) -> Option<int> {
    if 0 <= p < s.len() && s[p] < n {
        Some(p + 1)
    } else {
        None
    }
}

pub proof fn lemma_u8_at(s: Seq<u8>, p: int, x: u8)
    requires
        at(s, p, ser_u8(x)),
    ensures
        0 <= p < s.len(),
        s[p] == x,
{
    assert(s.subrange(p, p + 1)[0] == x);
}

pub fn write_u8(out: &mut Vec<u8>, x: u8)
    ensures
        final(out)@ == old(out)@ + ser_u8(x),
{
    out.push(x);
    assert(out@ =~= old(out)@ + ser_u8(x));
}

/// Reads a tag below `n`.
pub fn read_tag(b: &Vec<u8>, p: usize, n: u8) -> (r: Option<(u8, usize)>)
    ensures
        match r {
            Some((x, q)) => end_tag(b@, p as int, n) == Some(q as int) && read_ok(
                b@,
                p as int,
                q as int,
                ser_u8(x),
            ) && x < n,
            None => end_tag(b@, p as int, n) is None,
        },
{
    if p < b.len() && b[p] < n {
        assert(b@.subrange(p as int, p + 1) =~= ser_u8(b@[p as int]));
        Some((b[p], p + 1))
    } else {
        None
    }
}

// ---------------------------------------------------------------- u64

pub open spec fn u64_of(b0: u8, b1: u8, b2: u8, b3: u8, b4: u8, b5: u8, b6: u8, b7: u8) -> u64 {
    (b0 as u64) | (b1 as u64) << 8 | (b2 as u64) << 16 | (b3 as u64) << 24 | (b4 as u64) << 32 | (
    b5 as u64) << 40 | (b6 as u64) << 48 | (b7 as u64) << 56
}

/// Little-endian, eight bytes.
pub open spec fn ser_u64(x: u64) -> Seq<u8> {
    seq![
        (x & 0xff) as u8,
        ((x >> 8) & 0xff) as u8,
        ((x >> 16) & 0xff) as u8,
        ((x >> 24) & 0xff) as u8,
        ((x >> 32) & 0xff) as u8,
        ((x >> 40) & 0xff) as u8,
        ((x >> 48) & 0xff) as u8,
        ((x >> 56) & 0xff) as u8,
    ]
}

pub open spec fn le_u64(s: Seq<u8>, p: int) -> u64 {
    u64_of(s[p], s[p + 1], s[p + 2], s[p + 3], s[p + 4], s[p + 5], s[p + 6], s[p + 7])
}

pub open spec fn end_u64(s: Seq<u8>, p: int) -> Option<int> {
    if 0 <= p && p + 8 <= s.len() {
        Some(p + 8)
    } else {
        None
    }
}

proof fn lemma_u64_of_bytes(x: u64)
    ensures
        u64_of(
            (x & 0xff) as u8,
            ((x >> 8) & 0xff) as u8,
            ((x >> 16) & 0xff) as u8,
            ((x >> 24) & 0xff) as u8,
            ((x >> 32) & 0xff) as u8,
            ((x >> 40) & 0xff) as u8,
            ((x >> 48) & 0xff) as u8,
            ((x >> 56) & 0xff) as u8,
        ) == x,
{
    assert(((((x & 0xff) as u8) as u64) | ((((x >> 8) & 0xff) as u8) as u64) << 8 | ((((x >> 16)
        & 0xff) as u8) as u64) << 16 | ((((x >> 24) & 0xff) as u8) as u64) << 24 | ((((x >> 32)
        & 0xff) as u8) as u64) << 32 | ((((x >> 40) & 0xff) as u8) as u64) << 40 | ((((x >> 48)
        & 0xff) as u8) as u64) << 48 | ((((x >> 56) & 0xff) as u8) as u64) << 56) == x)
        by (bit_vector);
}

proof fn lemma_bytes_of_u64(b0: u8, b1: u8, b2: u8, b3: u8, b4: u8, b5: u8, b6: u8, b7: u8)
    ensures
        ser_u64(u64_of(b0, b1, b2, b3, b4, b5, b6, b7)) == seq![b0, b1, b2, b3, b4, b5, b6, b7],
{
    let x = u64_of(b0, b1, b2, b3, b4, b5, b6, b7);
    assert(x == (b0 as u64) | (b1 as u64) << 8 | (b2 as u64) << 16 | (b3 as u64) << 24 | (
    b4 as u64) << 32 | (b5 as u64) << 40 | (b6 as u64) << 48 | (b7 as u64) << 56);
    assert((x & 0xff) as u8 == b0 && ((x >> 8) & 0xff) as u8 == b1 && ((x >> 16) & 0xff) as u8
        == b2 && ((x >> 24) & 0xff) as u8 == b3 && ((x >> 32) & 0xff) as u8 == b4 && ((x >> 40)
        & 0xff) as u8 == b5 && ((x >> 48) & 0xff) as u8 == b6 && ((x >> 56) & 0xff) as u8 == b7)
        by (bit_vector)
        requires
            x == (b0 as u64) | (b1 as u64) << 8 | (b2 as u64) << 16 | (b3 as u64) << 24 | (
            b4 as u64) << 32 | (b5 as u64) << 40 | (b6 as u64) << 48 | (b7 as u64) << 56,
    ;
    assert(ser_u64(x) =~= seq![b0, b1, b2, b3, b4, b5, b6, b7]);
}

/// The eight bytes at `p` are the encoding of the value read there.
proof fn lemma_u64_read_sound(s: Seq<u8>, p: int)
    requires
        end_u64(s, p) is Some,
    ensures
        at(s, p, ser_u64(le_u64(s, p))),
{
    lemma_bytes_of_u64(s[p], s[p + 1], s[p + 2], s[p + 3], s[p + 4], s[p + 5], s[p + 6], s[p + 7]);
    assert(s.subrange(p, p + 8) =~= seq![
        s[p],
        s[p + 1],
        s[p + 2],
        s[p + 3],
        s[p + 4],
        s[p + 5],
        s[p + 6],
        s[p + 7],
    ]);
}

pub proof fn lemma_u64_end(s: Seq<u8>, p: int, x: u64)
    requires
        at(s, p, ser_u64(x)),
    ensures
        end_u64(s, p) == Some(p + 8),
        le_u64(s, p) == x,
        ser_u64(x).len() == 8,
{
    let w = s.subrange(p, p + 8);
    assert(w[0] == s[p] && w[1] == s[p + 1] && w[2] == s[p + 2] && w[3] == s[p + 3]);
    assert(w[4] == s[p + 4] && w[5] == s[p + 5] && w[6] == s[p + 6] && w[7] == s[p + 7]);
    lemma_u64_of_bytes(x);
}

pub fn write_u64(out: &mut Vec<u8>, x: u64)
    ensures
        final(out)@ == old(out)@ + ser_u64(x),
{
    out.push((x & 0xff) as u8);
    out.push(((x >> 8) & 0xff) as u8);
    out.push(((x >> 16) & 0xff) as u8);
    out.push(((x >> 24) & 0xff) as u8);
    out.push(((x >> 32) & 0xff) as u8);
    out.push(((x >> 40) & 0xff) as u8);
    out.push(((x >> 48) & 0xff) as u8);
    out.push(((x >> 56) & 0xff) as u8);
    assert(out@ =~= old(out)@ + ser_u64(x));
}

pub fn read_u64(b: &Vec<u8>, p: usize) -> (r: Option<(u64, usize)>)
    ensures
        match r {
            Some((x, q)) => end_u64(b@, p as int) == Some(q as int) && read_ok(
                b@,
                p as int,
                q as int,
                ser_u64(x),
            ) && x == le_u64(b@, p as int),
            None => end_u64(b@, p as int) is None,
        },
{
    if p > b.len() || b.len() - p < 8 {
        return None;
    }
    let x = (b[p] as u64) | (b[p + 1] as u64) << 8 | (b[p + 2] as u64) << 16 | (b[p + 3] as u64)
        << 24 | (b[p + 4] as u64) << 32 | (b[p + 5] as u64) << 40 | (b[p + 6] as u64) << 48 | (b[p
        + 7] as u64) << 56;
    proof {
        lemma_u64_read_sound(b@, p as int);
    }
    Some((x, p + 8))
}

// ---------------------------------------------------------------- u32, i64

pub open spec fn ser_u32(x: u32) -> Seq<u8> {
    ser_u64(x as u64)
}

pub open spec fn end_u32(s: Seq<u8>, p: int) -> Option<int> {
    if end_u64(s, p) is Some && le_u64(s, p) <= u32::MAX {
        Some(p + 8)
    } else {
        None
    }
}

pub proof fn lemma_u32_end(s: Seq<u8>, p: int, x: u32)
    requires
        at(s, p, ser_u32(x)),
    ensures
        end_u32(s, p) == Some(p + 8),
        ser_u32(x).len() == 8,
{
    lemma_u64_end(s, p, x as u64);
}

pub fn write_u32(out: &mut Vec<u8>, x: u32)
    ensures
        final(out)@ == old(out)@ + ser_u32(x),
{
    write_u64(out, x as u64);
}

pub fn read_u32(b: &Vec<u8>, p: usize) -> (r: Option<(u32, usize)>)
    ensures
        match r {
            Some((x, q)) => end_u32(b@, p as int) == Some(q as int) && read_ok(
                b@,
                p as int,
                q as int,
                ser_u32(x),
            ),
            None => end_u32(b@, p as int) is None,
        },
{
    match read_u64(b, p) {
        Some((v, q)) => {
            if v <= 0xffff_ffff {
                Some((v as u32, q))
            } else {
                None
            }
        },
        None => None,
    }
}

/// A signed value travels as its two's complement bits.
pub open spec fn ser_i64(x: i64) -> Seq<u8> {
    ser_u64(x as u64)
}

pub open spec fn end_i64(s: Seq<u8>, p: int) -> Option<int> {
    end_u64(s, p)
}

pub fn write_i64(out: &mut Vec<u8>, x: i64)
    ensures
        final(out)@ == old(out)@ + ser_i64(x),
{
    write_u64(out, x as u64);
}

pub fn read_i64(b: &Vec<u8>, p: usize) -> (r: Option<(i64, usize)>)
    ensures
        match r {
            Some((x, q)) => end_i64(b@, p as int) == Some(q as int) && read_ok(
                b@,
                p as int,
                q as int,
                ser_i64(x),
            ),
            None => end_i64(b@, p as int) is None,
        },
{
    match read_u64(b, p) {
        Some((v, q)) => {
            assert(((v as i64) as u64) == v) by (bit_vector);
            Some((v as i64, q))
        },
        None => None,
    }
}

// ---------------------------------------------------------------- fixed byte arrays

pub open spec fn end_fixed(s: Seq<u8>, p: int, n: int) -> Option<int> {
    if 0 <= p && p + n <= s.len() {
        Some(p + n)
    } else {
        None
    }
}

pub fn write_bytes(out: &mut Vec<u8>, a: &[u8])
    ensures
        final(out)@ == old(out)@ + a@,
{
    let mut i: usize = 0;
    while i < a.len()
        invariant
            i <= a@.len(),
            out@ == old(out)@ + a@.subrange(0, i as int),
        decreases a@.len() - i,
    {
        out.push(a[i]);
        i = i + 1;
        assert(out@ =~= old(out)@ + a@.subrange(0, i as int));
    }
    assert(a@.subrange(0, a@.len() as int) =~= a@);
}

pub fn read_array<const N: usize>(b: &Vec<u8>, p: usize) -> (r: Option<([u8; N], usize)>)
    ensures
        match r {
            Some((a, q)) => end_fixed(b@, p as int, N as int) == Some(q as int) && read_ok(
                b@,
                p as int,
                q as int,
                a@,
            ),
            None => end_fixed(b@, p as int, N as int) is None,
        },
{
    if p > b.len() || b.len() - p < N {
        return None;
    }
    let mut a = [0u8; N];
    let mut i: usize = 0;
    while i < N
        invariant
            i <= N,
            p + N <= b.len(),
            a@.len() == N,
            forall|j: int| 0 <= j < i ==> a@[j] == b@[p + j],
        decreases N - i,
    {
        a[i] = b[p + i];
        i = i + 1;
    }
    assert(b@.subrange(p as int, p + N) =~= a@);
    Some((a, p + N))
}

// ---------------------------------------------------------------- byte strings

/// A length followed by the bytes.
pub open spec fn ser_bytes(v: Seq<u8>) -> Seq<u8> {
    ser_u64(v.len() as u64) + v
}

pub open spec fn end_bytes(s: Seq<u8>, p: int) -> Option<int> {
    if end_u64(s, p) is Some && p + 8 + le_u64(s, p) <= s.len() {
        Some(p + 8 + le_u64(s, p))
    } else {
        None
    }
}

pub proof fn lemma_bytes_end(s: Seq<u8>, p: int, v: Seq<u8>)
    requires
        at(s, p, ser_bytes(v)),
        v.len() <= u64::MAX,
    ensures
        end_bytes(s, p) == Some(p + ser_bytes(v).len()),
{
    lemma_at_split(s, p, ser_u64(v.len() as u64), v);
    lemma_u64_end(s, p, v.len() as u64);
}

pub fn write_byte_vec(out: &mut Vec<u8>, v: &Vec<u8>)
    ensures
        final(out)@ == old(out)@ + ser_bytes(v@),
{
    write_u64(out, v.len() as u64);
    write_bytes(out, v.as_slice());
    assert(out@ =~= old(out)@ + ser_bytes(v@));
}

pub fn read_byte_vec(b: &Vec<u8>, p: usize) -> (r: Option<(Vec<u8>, usize)>)
    ensures
        match r {
            Some((v, q)) => end_bytes(b@, p as int) == Some(q as int) && read_ok(
                b@,
                p as int,
                q as int,
                ser_bytes(v@),
            ) && v@.len() <= u64::MAX,
            None => end_bytes(b@, p as int) is None,
        },
{
    let (n, p1) = match read_u64(b, p) {
        Some(x) => x,
        None => return None,
    };
    if n > (b.len() - p1) as u64 {
        return None;
    }
    let n = n as usize;
    let mut v: Vec<u8> = Vec::new();
    let mut i: usize = 0;
    while i < n
        invariant
            i <= n,
            p1 + n <= b.len(),
            v@ == b@.subrange(p1 as int, p1 + i),
        decreases n - i,
    {
        v.push(b[p1 + i]);
        i = i + 1;
        assert(v@ =~= b@.subrange(p1 as int, p1 + i));
    }
    proof {
        lemma_at_join(b@, p as int, ser_u64(n as u64), v@);
    }
    Some((v, p1 + n))
}

} // verus!
