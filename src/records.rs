//! Encoding of the chain's records, built from the primitives of `ser`.
use vstd::prelude::*;
use crate::ser::{
    at, read_ok, lemma_at_join, lemma_at_split, lemma_u8_at, ser_u8, end_tag, read_tag, write_u8,
    ser_u64, end_u64, le_u64, lemma_u64_end, read_u64, write_u64, ser_u32, end_u32,
    lemma_u32_end, read_u32, write_u32, ser_i64, read_i64, write_i64,
    end_fixed, read_array, write_bytes, ser_bytes, end_bytes, lemma_bytes_end, read_byte_vec,
    write_byte_vec,
};
use crate::types::{
    Block, BlockHeader, BlockSums, Commitment, Difficulty, Input, KernelFeatures, Output,
    OutputFeatures, Policy, Proof, ProofOfWork, Tip, TxKernel,
};

verus! {

// ---------------------------------------------------------------- sequences

/// The elements' encodings, one after the other.
pub open spec fn ser_seq<T>(v: Seq<T>, f: spec_fn(T) -> Seq<u8>) -> Seq<u8>
    decreases v.len(),
{
    if v.len() == 0 {
        Seq::empty()
    } else {
        ser_seq(v.drop_last(), f) + f(v.last())
    }
}

/// A count followed by the elements.
pub open spec fn ser_vec<T>(v: Seq<T>, f: spec_fn(T) -> Seq<u8>) -> Seq<u8> {
    ser_u64(v.len() as u64) + ser_seq(v, f)
}

/// Where `n` elements read with `e` from `p` end.
pub open spec fn end_seq(s: Seq<u8>, p: int, n: nat, e: spec_fn(Seq<u8>, int) -> Option<int>) -> Option<int>
    decreases n,
{
    if n == 0 {
        Some(p)
    } else {
        match e(s, p) {
            Some(q) => end_seq(s, q, (n - 1) as nat, e),
            None => None,
        }
    }
}

pub open spec fn end_vec(s: Seq<u8>, p: int, e: spec_fn(Seq<u8>, int) -> Option<int>) -> Option<int> {
    match end_u64(s, p) {
        Some(q) => end_seq(s, q, le_u64(s, p) as nat, e),
        None => None,
    }
}

proof fn lemma_end_seq_snoc(s: Seq<u8>, p: int, n: nat, e: spec_fn(Seq<u8>, int) -> Option<int>)
    ensures
        end_seq(s, p, n + 1, e) == match end_seq(s, p, n, e) {
            Some(q) => e(s, q),
            None => None,
        },
    decreases n,
{
    reveal_with_fuel(end_seq, 2);
    if n > 0 {
        match e(s, p) {
            Some(q) => lemma_end_seq_snoc(s, q, (n - 1) as nat, e),
            None => {},
        }
    }
}

proof fn lemma_seq_end<T>(
    s: Seq<u8>,
    p: int,
    v: Seq<T>,
    f: spec_fn(T) -> Seq<u8>,
    e: spec_fn(Seq<u8>, int) -> Option<int>,
    ok: spec_fn(T) -> bool,
)
    requires
        at(s, p, ser_seq(v, f)),
        forall|i: int| 0 <= i < v.len() ==> #[trigger] ok(v[i]),
        forall|x: T, s2: Seq<u8>, p2: int| #[trigger]
            at(s2, p2, f(x)) && ok(x) ==> e(s2, p2) == Some(p2 + f(x).len()),
    ensures
        end_seq(s, p, v.len(), e) == Some(p + ser_seq(v, f).len()),
    decreases v.len(),
{
    if v.len() > 0 {
        let w = v.drop_last();
        lemma_at_split(s, p, ser_seq(w, f), f(v.last()));
        assert(forall|i: int| 0 <= i < w.len() ==> w[i] == v[i]);
        assert(ok(v[v.len() - 1]));
        lemma_seq_end(s, p, w, f, e, ok);
        lemma_end_seq_snoc(s, p, w.len(), e);
    }
}

proof fn lemma_vec_end<T>(
    s: Seq<u8>,
    p: int,
    v: Seq<T>,
    f: spec_fn(T) -> Seq<u8>,
    e: spec_fn(Seq<u8>, int) -> Option<int>,
    ok: spec_fn(T) -> bool,
)
    requires
        at(s, p, ser_vec(v, f)),
        v.len() <= u64::MAX,
        forall|i: int| 0 <= i < v.len() ==> #[trigger] ok(v[i]),
        forall|x: T, s2: Seq<u8>, p2: int| #[trigger]
            at(s2, p2, f(x)) && ok(x) ==> e(s2, p2) == Some(p2 + f(x).len()),
    ensures
        end_vec(s, p, e) == Some(p + ser_vec(v, f).len()),
{
    lemma_at_split(s, p, ser_u64(v.len() as u64), ser_seq(v, f));
    lemma_u64_end(s, p, v.len() as u64);
    lemma_seq_end(s, p + 8, v, f, e, ok);
}

proof fn lemma_ser_seq_push<T>(v: Seq<T>, x: T, f: spec_fn(T) -> Seq<u8>)
    ensures
        ser_seq(v.push(x), f) == ser_seq(v, f) + f(x),
{
    assert(v.push(x).drop_last() =~= v);
}

// ---------------------------------------------------------------- u64 lists

pub open spec fn u64_ser_fn() -> spec_fn(u64) -> Seq<u8> {
    |x: u64| ser_u64(x)
}

pub open spec fn u64_end_fn() -> spec_fn(Seq<u8>, int) -> Option<int> {
    |s: Seq<u8>, p: int| end_u64(s, p)
}

pub open spec fn ser_u64s(v: Seq<u64>) -> Seq<u8> {
    ser_vec(v, u64_ser_fn())
}

pub open spec fn end_u64s(s: Seq<u8>, p: int) -> Option<int> {
    end_vec(s, p, u64_end_fn())
}

proof fn lemma_u64s_end(s: Seq<u8>, p: int, v: Seq<u64>)
    requires
        at(s, p, ser_u64s(v)),
        v.len() <= u64::MAX,
    ensures
        end_u64s(s, p) == Some(p + ser_u64s(v).len()),
{
    let f = u64_ser_fn();
    let e = u64_end_fn();
    let ok = |x: u64| true;
    assert forall|x: u64, s2: Seq<u8>, p2: int| #[trigger]
        at(s2, p2, f(x)) && ok(x) implies e(s2, p2) == Some(p2 + f(x).len()) by {
        lemma_u64_end(s2, p2, x);
    }
    lemma_vec_end(s, p, v, f, e, ok);
}

fn write_u64s(out: &mut Vec<u8>, v: &Vec<u64>)
    ensures
        final(out)@ == old(out)@ + ser_u64s(v@),
{
    let ghost f = u64_ser_fn();
    write_u64(out, v.len() as u64);
    let mut i: usize = 0;
    while i < v.len()
        invariant
            i <= v@.len(),
            f == u64_ser_fn(),
            out@ == old(out)@ + ser_u64(v@.len() as u64) + ser_seq(v@.subrange(0, i as int), f),
        decreases v@.len() - i,
    {
        write_u64(out, v[i]);
        proof {
            lemma_ser_seq_push(v@.subrange(0, i as int), v@[i as int], f);
            assert(v@.subrange(0, i + 1) =~= v@.subrange(0, i as int).push(v@[i as int]));
            assert(out@ =~= old(out)@ + ser_u64(v@.len() as u64) + ser_seq(
                v@.subrange(0, i + 1),
                f,
            ));
        }
        i = i + 1;
    }
    assert(v@.subrange(0, v@.len() as int) =~= v@);
    assert(v@.subrange(0, 0) =~= Seq::<u64>::empty());
}

fn read_u64s(b: &Vec<u8>, p: usize) -> (r: Option<(Vec<u64>, usize)>)
    ensures
        match r {
            Some((v, q)) => end_u64s(b@, p as int) == Some(q as int) && read_ok(
                b@,
                p as int,
                q as int,
                ser_u64s(v@),
            ) && v@.len() <= u64::MAX,
            None => end_u64s(b@, p as int) is None,
        },
{
    let ghost f = u64_ser_fn();
    let ghost e = u64_end_fn();
    let (n, p1) = match read_u64(b, p) {
        Some(x) => x,
        None => return None,
    };
    let mut v: Vec<u64> = Vec::new();
    assert(b@.subrange(p1 as int, p1 as int) =~= ser_seq(v@, f));
    let mut q = p1;
    let mut i: u64 = 0;
    while i < n
        invariant
            i <= n,
            v@.len() == i,
            f == u64_ser_fn(),
            e == u64_end_fn(),
            n == le_u64(b@, p as int),
            end_u64(b@, p as int) == Some(p1 as int),
            read_ok(b@, p as int, p1 as int, ser_u64(n)),
            end_seq(b@, p1 as int, n as nat, e) == end_seq(b@, q as int, (n - i) as nat, e),
            read_ok(b@, p1 as int, q as int, ser_seq(v@, f)),
        decreases n - i,
    {
        match read_u64(b, q) {
            Some((x, q2)) => {
                proof {
                    assert(f(x) == ser_u64(x));
                    lemma_at_join(b@, p1 as int, ser_seq(v@, f), f(x));
                    lemma_ser_seq_push(v@, x, f);
                }
                v.push(x);
                q = q2;
                i = i + 1;
            },
            None => {
                assert(e(b@, q as int) is None);
                assert(end_seq(b@, q as int, (n - i) as nat, e) is None);
                assert(end_u64s(b@, p as int) == end_seq(b@, p1 as int, n as nat, e));
                return None;
            },
        }
    }
    proof {
        lemma_at_join(b@, p as int, ser_u64(n), ser_seq(v@, f));
    }
    Some((v, q))
}

// ---------------------------------------------------------------- difficulty, policy

pub open spec fn ser_difficulty(d: Difficulty) -> Seq<u8> {
    ser_u64(d.cuckatoo) + ser_u64(d.progpow) + ser_u64(d.randomx)
}

pub open spec fn end_difficulty(s: Seq<u8>, p: int) -> Option<int> {
    end_fixed(s, p, 24)
}

fn write_difficulty(out: &mut Vec<u8>, d: &Difficulty)
    ensures
        final(out)@ == old(out)@ + ser_difficulty(*d),
{
    write_u64(out, d.cuckatoo);
    write_u64(out, d.progpow);
    write_u64(out, d.randomx);
    assert(out@ =~= old(out)@ + ser_difficulty(*d));
}

fn read_difficulty(b: &Vec<u8>, p: usize) -> (r: Option<(Difficulty, usize)>)
    ensures
        match r {
            Some((x, q)) => end_difficulty(b@, p as int) == Some(q as int) && read_ok(
                b@,
                p as int,
                q as int,
                ser_difficulty(x),
            ),
            None => end_difficulty(b@, p as int) is None,
        },
{
    let (c, p1) = match read_u64(b, p) {
        Some(x) => x,
        None => return None,
    };
    let (g, p2) = match read_u64(b, p1) {
        Some(x) => x,
        None => return None,
    };
    let (x, p3) = match read_u64(b, p2) {
        Some(x) => x,
        None => return None,
    };
    proof {
        lemma_at_join(b@, p as int, ser_u64(c), ser_u64(g));
        lemma_at_join(b@, p as int, ser_u64(c) + ser_u64(g), ser_u64(x));
    }
    Some((Difficulty { cuckatoo: c, progpow: g, randomx: x }, p3))
}

pub open spec fn ser_policy(x: Policy) -> Seq<u8> {
    ser_u32(x.cuckatoo) + ser_u32(x.progpow) + ser_u32(x.randomx)
}

pub open spec fn end_policy(s: Seq<u8>, p: int) -> Option<int> {
    match end_u32(s, p) {
        Some(p1) => match end_u32(s, p1) {
            Some(p2) => end_u32(s, p2),
            None => None,
        },
        None => None,
    }
}

proof fn lemma_policy_end(s: Seq<u8>, p: int, x: Policy)
    requires
        at(s, p, ser_policy(x)),
    ensures
        end_policy(s, p) == Some(p + ser_policy(x).len()),
{
    lemma_at_split(s, p, ser_u32(x.cuckatoo) + ser_u32(x.progpow), ser_u32(x.randomx));
    lemma_at_split(s, p, ser_u32(x.cuckatoo), ser_u32(x.progpow));
    lemma_u32_end(s, p, x.cuckatoo);
    lemma_u32_end(s, p + 8, x.progpow);
    lemma_u32_end(s, p + 16, x.randomx);
}

fn write_policy(out: &mut Vec<u8>, x: &Policy)
    ensures
        final(out)@ == old(out)@ + ser_policy(*x),
{
    write_u32(out, x.cuckatoo);
    write_u32(out, x.progpow);
    write_u32(out, x.randomx);
    assert(out@ =~= old(out)@ + ser_policy(*x));
}

fn read_policy(b: &Vec<u8>, p: usize) -> (r: Option<(Policy, usize)>)
    ensures
        match r {
            Some((x, q)) => end_policy(b@, p as int) == Some(q as int) && read_ok(
                b@,
                p as int,
                q as int,
                ser_policy(x),
            ),
            None => end_policy(b@, p as int) is None,
        },
{
    let (c, p1) = match read_u32(b, p) {
        Some(x) => x,
        None => return None,
    };
    let (g, p2) = match read_u32(b, p1) {
        Some(x) => x,
        None => return None,
    };
    let (x, p3) = match read_u32(b, p2) {
        Some(x) => x,
        None => return None,
    };
    proof {
        lemma_at_join(b@, p as int, ser_u32(c), ser_u32(g));
        lemma_at_join(b@, p as int, ser_u32(c) + ser_u32(g), ser_u32(x));
    }
    Some((Policy { cuckatoo: c, progpow: g, randomx: x }, p3))
}

// ---------------------------------------------------------------- proof of work

/// Every list in the value has a length that its count can hold.
pub open spec fn proof_fits(x: Proof) -> bool {
    match x {
        Proof::CuckooProof { nonces, .. } => nonces@.len() <= u64::MAX,
        _ => true,
    }
}

pub open spec fn ser_proof(x: Proof) -> Seq<u8> {
    match x {
        Proof::CuckooProof { edge_bits, nonces } => ser_u8(0) + ser_u8(edge_bits) + ser_u64s(
            nonces@,
        ),
        Proof::ProgPowProof { mix } => ser_u8(1) + mix@,
        Proof::RandomXProof { hash } => ser_u8(2) + hash@,
    }
}

pub open spec fn end_proof(s: Seq<u8>, p: int) -> Option<int> {
    match end_tag(s, p, 3) {
        Some(p1) => if s[p] == 0 {
            match end_fixed(s, p1, 1) {
                Some(p2) => end_u64s(s, p2),
                None => None,
            }
        } else {
            end_fixed(s, p1, 32)
        },
        None => None,
    }
}

proof fn lemma_proof_end(s: Seq<u8>, p: int, x: Proof)
    requires
        at(s, p, ser_proof(x)),
        proof_fits(x),
    ensures
        end_proof(s, p) == Some(p + ser_proof(x).len()),
{
    match x {
        Proof::CuckooProof { edge_bits, nonces } => {
            lemma_at_split(s, p, ser_u8(0) + ser_u8(edge_bits), ser_u64s(nonces@));
            lemma_at_split(s, p, ser_u8(0), ser_u8(edge_bits));
            lemma_u8_at(s, p, 0);
            lemma_u64s_end(s, p + 2, nonces@);
        },
        Proof::ProgPowProof { mix } => {
            lemma_at_split(s, p, ser_u8(1), mix@);
            lemma_u8_at(s, p, 1);
        },
        Proof::RandomXProof { hash } => {
            lemma_at_split(s, p, ser_u8(2), hash@);
            lemma_u8_at(s, p, 2);
        },
    }
}

fn write_proof(out: &mut Vec<u8>, x: &Proof)
    ensures
        final(out)@ == old(out)@ + ser_proof(*x),
{
    match x {
        Proof::CuckooProof { edge_bits, nonces } => {
            write_u8(out, 0);
            write_u8(out, *edge_bits);
            write_u64s(out, nonces);
        },
        Proof::ProgPowProof { mix } => {
            write_u8(out, 1);
            write_bytes(out, mix.as_slice());
        },
        Proof::RandomXProof { hash } => {
            write_u8(out, 2);
            write_bytes(out, hash.as_slice());
        },
    }
    assert(out@ =~= old(out)@ + ser_proof(*x));
}

fn read_proof(b: &Vec<u8>, p: usize) -> (r: Option<(Proof, usize)>)
    ensures
        match r {
            Some((x, q)) => end_proof(b@, p as int) == Some(q as int) && read_ok(
                b@,
                p as int,
                q as int,
                ser_proof(x),
            ) && proof_fits(x),
            None => end_proof(b@, p as int) is None,
        },
{
    let (tag, p1) = match read_tag(b, p, 3) {
        Some(x) => x,
        None => return None,
    };
    proof {
        lemma_u8_at(b@, p as int, tag);
    }
    if tag == 0 {
        let (eb, p2) = match read_array::<1>(b, p1) {
            Some(x) => x,
            None => return None,
        };
        let (nonces, p3) = match read_u64s(b, p2) {
            Some(x) => x,
            None => return None,
        };
        let x = Proof::CuckooProof { edge_bits: eb[0], nonces };
        proof {
            assert(eb@ =~= ser_u8(eb[0]));
            lemma_at_join(b@, p as int, ser_u8(0), ser_u8(eb[0]));
            lemma_at_join(b@, p as int, ser_u8(0) + ser_u8(eb[0]), ser_u64s(nonces@));
        }
        Some((x, p3))
    } else {
        let (a, p2) = match read_array::<32>(b, p1) {
            Some(x) => x,
            None => return None,
        };
        proof {
            lemma_at_join(b@, p as int, ser_u8(tag), a@);
        }
        if tag == 1 {
            Some((Proof::ProgPowProof { mix: a }, p2))
        } else {
            Some((Proof::RandomXProof { hash: a }, p2))
        }
    }
}

pub open spec fn ser_pow(x: ProofOfWork) -> Seq<u8> {
    ser_proof(x.proof) + ser_u32(x.secondary_scaling) + ser_u64(x.nonce) + x.seed@
}

pub open spec fn end_pow(s: Seq<u8>, p: int) -> Option<int> {
    match end_proof(s, p) {
        Some(p1) => match end_u32(s, p1) {
            Some(p2) => end_fixed(s, p2, 40),
            None => None,
        },
        None => None,
    }
}

proof fn lemma_pow_end(s: Seq<u8>, p: int, x: ProofOfWork)
    requires
        at(s, p, ser_pow(x)),
        proof_fits(x.proof),
    ensures
        end_pow(s, p) == Some(p + ser_pow(x).len()),
{
    let a = ser_proof(x.proof);
    let b = ser_u32(x.secondary_scaling);
    let c = ser_u64(x.nonce);
    lemma_at_split(s, p, a + b + c, x.seed@);
    lemma_at_split(s, p, a + b, c);
    lemma_at_split(s, p, a, b);
    lemma_proof_end(s, p, x.proof);
    lemma_u32_end(s, p + a.len(), x.secondary_scaling);
}

fn write_pow(out: &mut Vec<u8>, x: &ProofOfWork)
    ensures
        final(out)@ == old(out)@ + ser_pow(*x),
{
    write_proof(out, &x.proof);
    write_u32(out, x.secondary_scaling);
    write_u64(out, x.nonce);
    write_bytes(out, x.seed.as_slice());
    assert(out@ =~= old(out)@ + ser_pow(*x));
}

fn read_pow(b: &Vec<u8>, p: usize) -> (r: Option<(ProofOfWork, usize)>)
    ensures
        match r {
            Some((x, q)) => end_pow(b@, p as int) == Some(q as int) && read_ok(
                b@,
                p as int,
                q as int,
                ser_pow(x),
            ) && proof_fits(x.proof),
            None => end_pow(b@, p as int) is None,
        },
{
    let (proof_, p1) = match read_proof(b, p) {
        Some(x) => x,
        None => return None,
    };
    let (scaling, p2) = match read_u32(b, p1) {
        Some(x) => x,
        None => return None,
    };
    if p2 > b.len() || b.len() - p2 < 40 {
        return None;
    }
    let (nonce, p3) = match read_u64(b, p2) {
        Some(x) => x,
        None => return None,
    };
    let (seed, p4) = match read_array::<32>(b, p3) {
        Some(x) => x,
        None => return None,
    };
    let ghost a = ser_proof(proof_);
    proof {
        lemma_at_join(b@, p as int, a, ser_u32(scaling));
        lemma_at_join(b@, p as int, a + ser_u32(scaling), ser_u64(nonce));
        lemma_at_join(b@, p as int, a + ser_u32(scaling) + ser_u64(nonce), seed@);
    }
    Some((ProofOfWork { proof: proof_, secondary_scaling: scaling, nonce, seed }, p4))
}

// ---------------------------------------------------------------- header

/// The fixed-size leading fields of a header: 152 bytes.
pub open spec fn ser_header_fixed(h: BlockHeader) -> Seq<u8> {
    ser_u64(h.height) + ser_i64(h.timestamp) + h.prev_hash.0@ + h.output_root.0@ + h.kernel_root.0@
        + ser_u64(h.output_mmr_size) + ser_u64(h.kernel_mmr_size) + ser_difficulty(
        h.total_difficulty,
    )
}

pub open spec fn ser_header(h: BlockHeader) -> Seq<u8> {
    ser_header_fixed(h) + ser_pow(h.pow) + ser_u8(h.policy) + ser_policy(h.bottles)
}

pub open spec fn end_header(s: Seq<u8>, p: int) -> Option<int> {
    match end_fixed(s, p, 152) {
        Some(p1) => match end_pow(s, p1) {
            Some(p2) => match end_fixed(s, p2, 1) {
                Some(p3) => end_policy(s, p3),
                None => None,
            },
            None => None,
        },
        None => None,
    }
}

pub open spec fn header_fits(h: BlockHeader) -> bool {
    proof_fits(h.pow.proof)
}

pub proof fn lemma_header_end(s: Seq<u8>, p: int, h: BlockHeader)
    requires
        at(s, p, ser_header(h)),
        header_fits(h),
    ensures
        end_header(s, p) == Some(p + ser_header(h).len()),
{
    let a = ser_header_fixed(h);
    let b = ser_pow(h.pow);
    let c = ser_u8(h.policy);
    assert(a.len() == 152);
    lemma_at_split(s, p, a + b + c, ser_policy(h.bottles));
    lemma_at_split(s, p, a + b, c);
    lemma_at_split(s, p, a, b);
    lemma_pow_end(s, p + 152, h.pow);
    lemma_policy_end(s, p + (a + b + c).len(), h.bottles);
}

pub fn write_header(out: &mut Vec<u8>, h: &BlockHeader)
    ensures
        final(out)@ == old(out)@ + ser_header(*h),
{
    write_u64(out, h.height);
    write_i64(out, h.timestamp);
    write_bytes(out, h.prev_hash.0.as_slice());
    write_bytes(out, h.output_root.0.as_slice());
    write_bytes(out, h.kernel_root.0.as_slice());
    write_u64(out, h.output_mmr_size);
    write_u64(out, h.kernel_mmr_size);
    write_difficulty(out, &h.total_difficulty);
    write_pow(out, &h.pow);
    write_u8(out, h.policy);
    write_policy(out, &h.bottles);
    assert(out@ =~= old(out)@ + ser_header(*h));
}

pub fn read_header(b: &Vec<u8>, p: usize) -> (r: Option<(BlockHeader, usize)>)
    ensures
        match r {
            Some((x, q)) => end_header(b@, p as int) == Some(q as int) && read_ok(
                b@,
                p as int,
                q as int,
                ser_header(x),
            ) && header_fits(x),
            None => end_header(b@, p as int) is None,
        },
{
    if p > b.len() || b.len() - p < 152 {
        return None;
    }
    let (height, p1) = match read_u64(b, p) {
        Some(x) => x,
        None => return None,
    };
    let (timestamp, p2) = match read_i64(b, p1) {
        Some(x) => x,
        None => return None,
    };
    let (prev, p3) = match read_array::<32>(b, p2) {
        Some(x) => x,
        None => return None,
    };
    let (oroot, p4) = match read_array::<32>(b, p3) {
        Some(x) => x,
        None => return None,
    };
    let (kroot, p5) = match read_array::<32>(b, p4) {
        Some(x) => x,
        None => return None,
    };
    let (omm, p6) = match read_u64(b, p5) {
        Some(x) => x,
        None => return None,
    };
    let (kmm, p7) = match read_u64(b, p6) {
        Some(x) => x,
        None => return None,
    };
    let (td, p8) = match read_difficulty(b, p7) {
        Some(x) => x,
        None => return None,
    };
    let (pow, p9) = match read_pow(b, p8) {
        Some(x) => x,
        None => return None,
    };
    let (pol, p10) = match read_array::<1>(b, p9) {
        Some(x) => x,
        None => return None,
    };
    let (bottles, p11) = match read_policy(b, p10) {
        Some(x) => x,
        None => return None,
    };
    let h = BlockHeader {
        height,
        timestamp,
        prev_hash: crate::types::Hash(prev),
        output_root: crate::types::Hash(oroot),
        kernel_root: crate::types::Hash(kroot),
        output_mmr_size: omm,
        kernel_mmr_size: kmm,
        total_difficulty: td,
        pow,
        policy: pol[0],
        bottles,
    };
    proof {
        let s = b@;
        let q = p as int;
        let a1 = ser_u64(height);
        let a2 = a1 + ser_i64(timestamp);
        let a3 = a2 + prev@;
        let a4 = a3 + oroot@;
        let a5 = a4 + kroot@;
        let a6 = a5 + ser_u64(omm);
        let a7 = a6 + ser_u64(kmm);
        let a8 = a7 + ser_difficulty(td);
        let a9 = a8 + ser_pow(pow);
        let a10 = a9 + ser_u8(pol[0]);
        assert(pol@ =~= ser_u8(pol[0]));
        lemma_at_join(s, q, a1, ser_i64(timestamp));
        lemma_at_join(s, q, a2, prev@);
        lemma_at_join(s, q, a3, oroot@);
        lemma_at_join(s, q, a4, kroot@);
        lemma_at_join(s, q, a5, ser_u64(omm));
        lemma_at_join(s, q, a6, ser_u64(kmm));
        lemma_at_join(s, q, a7, ser_difficulty(td));
        lemma_at_join(s, q, a8, ser_pow(pow));
        lemma_at_join(s, q, a9, ser_u8(pol[0]));
        lemma_at_join(s, q, a10, ser_policy(bottles));
        assert(a8 =~= ser_header_fixed(h));
        assert(a10 + ser_policy(bottles) =~= ser_header(h));
    }
    Some((h, p11))
}

// ---------------------------------------------------------------- tip, sums

pub open spec fn ser_tip(t: Tip) -> Seq<u8> {
    t.last_block_h.0@ + t.prev_block_h.0@ + ser_u64(t.height) + ser_difficulty(t.total_difficulty)
}

pub fn write_tip(out: &mut Vec<u8>, t: &Tip)
    ensures
        final(out)@ == old(out)@ + ser_tip(*t),
{
    write_bytes(out, t.last_block_h.0.as_slice());
    write_bytes(out, t.prev_block_h.0.as_slice());
    write_u64(out, t.height);
    write_difficulty(out, &t.total_difficulty);
    assert(out@ =~= old(out)@ + ser_tip(*t));
}

pub fn read_tip(b: &Vec<u8>, p: usize) -> (r: Option<(Tip, usize)>)
    ensures
        match r {
            Some((x, q)) => end_fixed(b@, p as int, 96) == Some(q as int) && read_ok(
                b@,
                p as int,
                q as int,
                ser_tip(x),
            ),
            None => end_fixed(b@, p as int, 96) is None,
        },
{
    if p > b.len() || b.len() - p < 96 {
        return None;
    }
    let (last, p1) = match read_array::<32>(b, p) {
        Some(x) => x,
        None => return None,
    };
    let (prev, p2) = match read_array::<32>(b, p1) {
        Some(x) => x,
        None => return None,
    };
    let (height, p3) = match read_u64(b, p2) {
        Some(x) => x,
        None => return None,
    };
    let (td, p4) = match read_difficulty(b, p3) {
        Some(x) => x,
        None => return None,
    };
    proof {
        lemma_at_join(b@, p as int, last@, prev@);
        lemma_at_join(b@, p as int, last@ + prev@, ser_u64(height));
        lemma_at_join(b@, p as int, last@ + prev@ + ser_u64(height), ser_difficulty(td));
    }
    let t = Tip {
        last_block_h: crate::types::Hash(last),
        prev_block_h: crate::types::Hash(prev),
        height,
        total_difficulty: td,
    };
    Some((t, p4))
}

pub open spec fn ser_sums(x: BlockSums) -> Seq<u8> {
    x.utxo_sum.0@ + x.kernel_sum.0@
}

pub fn write_sums(out: &mut Vec<u8>, x: &BlockSums)
    ensures
        final(out)@ == old(out)@ + ser_sums(*x),
{
    write_bytes(out, x.utxo_sum.0.as_slice());
    write_bytes(out, x.kernel_sum.0.as_slice());
    assert(out@ =~= old(out)@ + ser_sums(*x));
}

pub fn read_sums(b: &Vec<u8>, p: usize) -> (r: Option<(BlockSums, usize)>)
    ensures
        match r {
            Some((x, q)) => end_fixed(b@, p as int, 66) == Some(q as int) && read_ok(
                b@,
                p as int,
                q as int,
                ser_sums(x),
            ),
            None => end_fixed(b@, p as int, 66) is None,
        },
{
    if p > b.len() || b.len() - p < 66 {
        return None;
    }
    let (u, p1) = match read_array::<33>(b, p) {
        Some(x) => x,
        None => return None,
    };
    let (k, p2) = match read_array::<33>(b, p1) {
        Some(x) => x,
        None => return None,
    };
    proof {
        lemma_at_join(b@, p as int, u@, k@);
    }
    Some((BlockSums { utxo_sum: Commitment(u), kernel_sum: Commitment(k) }, p2))
}

// ---------------------------------------------------------------- body

pub open spec fn output_features_tag(f: OutputFeatures) -> u8 {
    match f {
        OutputFeatures::Plain => 0,
        OutputFeatures::Coinbase => 1,
    }
}

pub open spec fn kernel_features_tag(f: KernelFeatures) -> u8 {
    match f {
        KernelFeatures::Plain => 0,
        KernelFeatures::Coinbase => 1,
        KernelFeatures::HeightLocked => 2,
    }
}

fn output_features_of(tag: u8) -> (r: OutputFeatures)
    requires
        tag < 2,
    ensures
        output_features_tag(r) == tag,
{
    if tag == 0 {
        OutputFeatures::Plain
    } else {
        OutputFeatures::Coinbase
    }
}

fn output_features_byte(f: OutputFeatures) -> (r: u8)
    ensures
        r == output_features_tag(f),
{
    match f {
        OutputFeatures::Plain => 0,
        OutputFeatures::Coinbase => 1,
    }
}

pub open spec fn ser_input(x: Input) -> Seq<u8> {
    ser_u8(output_features_tag(x.features)) + x.commit.0@
}

pub open spec fn end_input(s: Seq<u8>, p: int) -> Option<int> {
    match end_tag(s, p, 2) {
        Some(p1) => end_fixed(s, p1, 33),
        None => None,
    }
}

pub open spec fn input_ser_fn() -> spec_fn(Input) -> Seq<u8> {
    |x: Input| ser_input(x)
}

pub open spec fn input_end_fn() -> spec_fn(Seq<u8>, int) -> Option<int> {
    |s: Seq<u8>, p: int| end_input(s, p)
}

proof fn lemma_input_end(s: Seq<u8>, p: int, x: Input)
    requires
        at(s, p, ser_input(x)),
    ensures
        end_input(s, p) == Some(p + ser_input(x).len()),
{
    lemma_at_split(s, p, ser_u8(output_features_tag(x.features)), x.commit.0@);
    lemma_u8_at(s, p, output_features_tag(x.features));
}

fn read_input(b: &Vec<u8>, p: usize) -> (r: Option<(Input, usize)>)
    ensures
        match r {
            Some((x, q)) => end_input(b@, p as int) == Some(q as int) && read_ok(
                b@,
                p as int,
                q as int,
                ser_input(x),
            ),
            None => end_input(b@, p as int) is None,
        },
{
    let (tag, p1) = match read_tag(b, p, 2) {
        Some(x) => x,
        None => return None,
    };
    let (c, p2) = match read_array::<33>(b, p1) {
        Some(x) => x,
        None => return None,
    };
    let features = output_features_of(tag);
    proof {
        lemma_at_join(b@, p as int, ser_u8(tag), c@);
    }
    Some((Input { features, commit: Commitment(c) }, p2))
}

fn write_input(out: &mut Vec<u8>, x: &Input)
    ensures
        final(out)@ == old(out)@ + ser_input(*x),
{
    write_u8(out, output_features_byte(x.features));
    write_bytes(out, x.commit.0.as_slice());
    assert(out@ =~= old(out)@ + ser_input(*x));
}

pub open spec fn ser_output(x: Output) -> Seq<u8> {
    ser_u8(output_features_tag(x.features)) + x.commit.0@ + ser_bytes(x.proof@)
}

pub open spec fn end_output(s: Seq<u8>, p: int) -> Option<int> {
    match end_tag(s, p, 2) {
        Some(p1) => match end_fixed(s, p1, 33) {
            Some(p2) => end_bytes(s, p2),
            None => None,
        },
        None => None,
    }
}

pub open spec fn output_fits(x: Output) -> bool {
    x.proof@.len() <= u64::MAX
}

pub open spec fn output_ser_fn() -> spec_fn(Output) -> Seq<u8> {
    |x: Output| ser_output(x)
}

pub open spec fn output_end_fn() -> spec_fn(Seq<u8>, int) -> Option<int> {
    |s: Seq<u8>, p: int| end_output(s, p)
}

proof fn lemma_output_end(s: Seq<u8>, p: int, x: Output)
    requires
        at(s, p, ser_output(x)),
        output_fits(x),
    ensures
        end_output(s, p) == Some(p + ser_output(x).len()),
{
    let t = ser_u8(output_features_tag(x.features));
    lemma_at_split(s, p, t + x.commit.0@, ser_bytes(x.proof@));
    lemma_at_split(s, p, t, x.commit.0@);
    lemma_u8_at(s, p, output_features_tag(x.features));
    lemma_bytes_end(s, p + 34, x.proof@);
}

fn read_output(b: &Vec<u8>, p: usize) -> (r: Option<(Output, usize)>)
    ensures
        match r {
            Some((x, q)) => end_output(b@, p as int) == Some(q as int) && read_ok(
                b@,
                p as int,
                q as int,
                ser_output(x),
            ) && output_fits(x),
            None => end_output(b@, p as int) is None,
        },
{
    let (tag, p1) = match read_tag(b, p, 2) {
        Some(x) => x,
        None => return None,
    };
    let (c, p2) = match read_array::<33>(b, p1) {
        Some(x) => x,
        None => return None,
    };
    let (proof_bytes, p3) = match read_byte_vec(b, p2) {
        Some(x) => x,
        None => return None,
    };
    let features = output_features_of(tag);
    proof {
        lemma_at_join(b@, p as int, ser_u8(tag), c@);
        lemma_at_join(b@, p as int, ser_u8(tag) + c@, ser_bytes(proof_bytes@));
    }
    Some((Output { features, commit: Commitment(c), proof: proof_bytes }, p3))
}

fn write_output(out: &mut Vec<u8>, x: &Output)
    ensures
        final(out)@ == old(out)@ + ser_output(*x),
{
    write_u8(out, output_features_byte(x.features));
    write_bytes(out, x.commit.0.as_slice());
    write_byte_vec(out, &x.proof);
    assert(out@ =~= old(out)@ + ser_output(*x));
}

pub open spec fn ser_kernel(x: TxKernel) -> Seq<u8> {
    ser_u8(kernel_features_tag(x.features)) + ser_u64(x.fee) + ser_u64(x.lock_height)
        + x.excess.0@ + x.excess_sig@
}

pub open spec fn end_kernel(s: Seq<u8>, p: int) -> Option<int> {
    match end_tag(s, p, 3) {
        Some(p1) => end_fixed(s, p1, 113),
        None => None,
    }
}

pub open spec fn kernel_ser_fn() -> spec_fn(TxKernel) -> Seq<u8> {
    |x: TxKernel| ser_kernel(x)
}

pub open spec fn kernel_end_fn() -> spec_fn(Seq<u8>, int) -> Option<int> {
    |s: Seq<u8>, p: int| end_kernel(s, p)
}

proof fn lemma_kernel_end(s: Seq<u8>, p: int, x: TxKernel)
    requires
        at(s, p, ser_kernel(x)),
    ensures
        end_kernel(s, p) == Some(p + ser_kernel(x).len()),
{
    let t = ser_u8(kernel_features_tag(x.features));
    let rest = ser_u64(x.fee) + ser_u64(x.lock_height) + x.excess.0@ + x.excess_sig@;
    assert(ser_kernel(x) =~= t + rest);
    lemma_at_split(s, p, t, rest);
    lemma_u8_at(s, p, kernel_features_tag(x.features));
}

fn read_kernel(b: &Vec<u8>, p: usize) -> (r: Option<(TxKernel, usize)>)
    ensures
        match r {
            Some((x, q)) => end_kernel(b@, p as int) == Some(q as int) && read_ok(
                b@,
                p as int,
                q as int,
                ser_kernel(x),
            ),
            None => end_kernel(b@, p as int) is None,
        },
{
    let (tag, p1) = match read_tag(b, p, 3) {
        Some(x) => x,
        None => return None,
    };
    if p1 > b.len() || b.len() - p1 < 113 {
        return None;
    }
    let (fee, p2) = match read_u64(b, p1) {
        Some(x) => x,
        None => return None,
    };
    let (lock, p3) = match read_u64(b, p2) {
        Some(x) => x,
        None => return None,
    };
    let (excess, p4) = match read_array::<33>(b, p3) {
        Some(x) => x,
        None => return None,
    };
    let (sig, p5) = match read_array::<64>(b, p4) {
        Some(x) => x,
        None => return None,
    };
    let features = if tag == 0 {
        KernelFeatures::Plain
    } else if tag == 1 {
        KernelFeatures::Coinbase
    } else {
        KernelFeatures::HeightLocked
    };
    proof {
        let s = b@;
        let q = p as int;
        lemma_at_join(s, q, ser_u8(tag), ser_u64(fee));
        lemma_at_join(s, q, ser_u8(tag) + ser_u64(fee), ser_u64(lock));
        lemma_at_join(s, q, ser_u8(tag) + ser_u64(fee) + ser_u64(lock), excess@);
        lemma_at_join(s, q, ser_u8(tag) + ser_u64(fee) + ser_u64(lock) + excess@, sig@);
    }
    Some((TxKernel { features, fee, lock_height: lock, excess: Commitment(excess), excess_sig: sig }, p5))
}

fn write_kernel(out: &mut Vec<u8>, x: &TxKernel)
    ensures
        final(out)@ == old(out)@ + ser_kernel(*x),
{
    let tag: u8 = match x.features {
        KernelFeatures::Plain => 0,
        KernelFeatures::Coinbase => 1,
        KernelFeatures::HeightLocked => 2,
    };
    write_u8(out, tag);
    write_u64(out, x.fee);
    write_u64(out, x.lock_height);
    write_bytes(out, x.excess.0.as_slice());
    write_bytes(out, x.excess_sig.as_slice());
    assert(out@ =~= old(out)@ + ser_kernel(*x));
}

fn write_inputs(out: &mut Vec<u8>, v: &Vec<Input>)
    ensures
        final(out)@ == old(out)@ + ser_vec(v@, input_ser_fn()),
{
    let ghost f = input_ser_fn();
    write_u64(out, v.len() as u64);
    let mut i: usize = 0;
    while i < v.len()
        invariant
            i <= v@.len(),
            f == input_ser_fn(),
            out@ == old(out)@ + ser_u64(v@.len() as u64) + ser_seq(v@.subrange(0, i as int), f),
        decreases v@.len() - i,
    {
        write_input(out, &v[i]);
        proof {
            lemma_ser_seq_push(v@.subrange(0, i as int), v@[i as int], f);
            assert(v@.subrange(0, i + 1) =~= v@.subrange(0, i as int).push(v@[i as int]));
            assert(out@ =~= old(out)@ + ser_u64(v@.len() as u64) + ser_seq(
                v@.subrange(0, i + 1),
                f,
            ));
        }
        i = i + 1;
    }
    assert(v@.subrange(0, v@.len() as int) =~= v@);
}

fn read_inputs(b: &Vec<u8>, p: usize) -> (r: Option<(Vec<Input>, usize)>)
    ensures
        match r {
            Some((v, q)) => end_vec(b@, p as int, input_end_fn()) == Some(q as int) && read_ok(
                b@,
                p as int,
                q as int,
                ser_vec(v@, input_ser_fn()),
            ) && v@.len() <= u64::MAX,
            None => end_vec(b@, p as int, input_end_fn()) is None,
        },
{
    let ghost f = input_ser_fn();
    let ghost e = input_end_fn();
    let (n, p1) = match read_u64(b, p) {
        Some(x) => x,
        None => return None,
    };
    let mut v: Vec<Input> = Vec::new();
    assert(b@.subrange(p1 as int, p1 as int) =~= ser_seq(v@, f));
    let mut q = p1;
    let mut i: u64 = 0;
    while i < n
        invariant
            i <= n,
            v@.len() == i,
            f == input_ser_fn(),
            e == input_end_fn(),
            n == le_u64(b@, p as int),
            end_u64(b@, p as int) == Some(p1 as int),
            read_ok(b@, p as int, p1 as int, ser_u64(n)),
            end_seq(b@, p1 as int, n as nat, e) == end_seq(b@, q as int, (n - i) as nat, e),
            read_ok(b@, p1 as int, q as int, ser_seq(v@, f)),
        decreases n - i,
    {
        match read_input(b, q) {
            Some((x, q2)) => {
                proof {
                    assert(f(x) == ser_input(x));
                    lemma_at_join(b@, p1 as int, ser_seq(v@, f), f(x));
                    lemma_ser_seq_push(v@, x, f);
                }
                v.push(x);
                q = q2;
                i = i + 1;
            },
            None => {
                assert(e(b@, q as int) is None);
                assert(end_seq(b@, q as int, (n - i) as nat, e) is None);
                return None;
            },
        }
    }
    proof {
        lemma_at_join(b@, p as int, ser_u64(n), ser_seq(v@, f));
    }
    Some((v, q))
}

fn write_outputs(out: &mut Vec<u8>, v: &Vec<Output>)
    ensures
        final(out)@ == old(out)@ + ser_vec(v@, output_ser_fn()),
{
    let ghost f = output_ser_fn();
    write_u64(out, v.len() as u64);
    let mut i: usize = 0;
    while i < v.len()
        invariant
            i <= v@.len(),
            f == output_ser_fn(),
            out@ == old(out)@ + ser_u64(v@.len() as u64) + ser_seq(v@.subrange(0, i as int), f),
        decreases v@.len() - i,
    {
        write_output(out, &v[i]);
        proof {
            lemma_ser_seq_push(v@.subrange(0, i as int), v@[i as int], f);
            assert(v@.subrange(0, i + 1) =~= v@.subrange(0, i as int).push(v@[i as int]));
            assert(out@ =~= old(out)@ + ser_u64(v@.len() as u64) + ser_seq(
                v@.subrange(0, i + 1),
                f,
            ));
        }
        i = i + 1;
    }
    assert(v@.subrange(0, v@.len() as int) =~= v@);
}

fn read_outputs(b: &Vec<u8>, p: usize) -> (r: Option<(Vec<Output>, usize)>)
    ensures
        match r {
            Some((v, q)) => end_vec(b@, p as int, output_end_fn()) == Some(q as int) && read_ok(
                b@,
                p as int,
                q as int,
                ser_vec(v@, output_ser_fn()),
            ) && v@.len() <= u64::MAX && forall|j: int| 0 <= j < v@.len() ==> output_fits(#[trigger] v@[j]),
            None => end_vec(b@, p as int, output_end_fn()) is None,
        },
{
    let ghost f = output_ser_fn();
    let ghost e = output_end_fn();
    let (n, p1) = match read_u64(b, p) {
        Some(x) => x,
        None => return None,
    };
    let mut v: Vec<Output> = Vec::new();
    assert(b@.subrange(p1 as int, p1 as int) =~= ser_seq(v@, f));
    let mut q = p1;
    let mut i: u64 = 0;
    while i < n
        invariant
            i <= n,
            v@.len() == i,
            f == output_ser_fn(),
            forall|j: int| 0 <= j < v@.len() ==> output_fits(#[trigger] v@[j]),
            e == output_end_fn(),
            n == le_u64(b@, p as int),
            end_u64(b@, p as int) == Some(p1 as int),
            read_ok(b@, p as int, p1 as int, ser_u64(n)),
            end_seq(b@, p1 as int, n as nat, e) == end_seq(b@, q as int, (n - i) as nat, e),
            read_ok(b@, p1 as int, q as int, ser_seq(v@, f)),
        decreases n - i,
    {
        match read_output(b, q) {
            Some((x, q2)) => {
                proof {
                    assert(f(x) == ser_output(x));
                    lemma_at_join(b@, p1 as int, ser_seq(v@, f), f(x));
                    lemma_ser_seq_push(v@, x, f);
                }
                v.push(x);
                q = q2;
                i = i + 1;
            },
            None => {
                assert(e(b@, q as int) is None);
                assert(end_seq(b@, q as int, (n - i) as nat, e) is None);
                return None;
            },
        }
    }
    proof {
        lemma_at_join(b@, p as int, ser_u64(n), ser_seq(v@, f));
    }
    Some((v, q))
}

fn write_kernels(out: &mut Vec<u8>, v: &Vec<TxKernel>)
    ensures
        final(out)@ == old(out)@ + ser_vec(v@, kernel_ser_fn()),
{
    let ghost f = kernel_ser_fn();
    write_u64(out, v.len() as u64);
    let mut i: usize = 0;
    while i < v.len()
        invariant
            i <= v@.len(),
            f == kernel_ser_fn(),
            out@ == old(out)@ + ser_u64(v@.len() as u64) + ser_seq(v@.subrange(0, i as int), f),
        decreases v@.len() - i,
    {
        write_kernel(out, &v[i]);
        proof {
            lemma_ser_seq_push(v@.subrange(0, i as int), v@[i as int], f);
            assert(v@.subrange(0, i + 1) =~= v@.subrange(0, i as int).push(v@[i as int]));
            assert(out@ =~= old(out)@ + ser_u64(v@.len() as u64) + ser_seq(
                v@.subrange(0, i + 1),
                f,
            ));
        }
        i = i + 1;
    }
    assert(v@.subrange(0, v@.len() as int) =~= v@);
}

fn read_kernels(b: &Vec<u8>, p: usize) -> (r: Option<(Vec<TxKernel>, usize)>)
    ensures
        match r {
            Some((v, q)) => end_vec(b@, p as int, kernel_end_fn()) == Some(q as int) && read_ok(
                b@,
                p as int,
                q as int,
                ser_vec(v@, kernel_ser_fn()),
            ) && v@.len() <= u64::MAX,
            None => end_vec(b@, p as int, kernel_end_fn()) is None,
        },
{
    let ghost f = kernel_ser_fn();
    let ghost e = kernel_end_fn();
    let (n, p1) = match read_u64(b, p) {
        Some(x) => x,
        None => return None,
    };
    let mut v: Vec<TxKernel> = Vec::new();
    assert(b@.subrange(p1 as int, p1 as int) =~= ser_seq(v@, f));
    let mut q = p1;
    let mut i: u64 = 0;
    while i < n
        invariant
            i <= n,
            v@.len() == i,
            f == kernel_ser_fn(),
            e == kernel_end_fn(),
            n == le_u64(b@, p as int),
            end_u64(b@, p as int) == Some(p1 as int),
            read_ok(b@, p as int, p1 as int, ser_u64(n)),
            end_seq(b@, p1 as int, n as nat, e) == end_seq(b@, q as int, (n - i) as nat, e),
            read_ok(b@, p1 as int, q as int, ser_seq(v@, f)),
        decreases n - i,
    {
        match read_kernel(b, q) {
            Some((x, q2)) => {
                proof {
                    assert(f(x) == ser_kernel(x));
                    lemma_at_join(b@, p1 as int, ser_seq(v@, f), f(x));
                    lemma_ser_seq_push(v@, x, f);
                }
                v.push(x);
                q = q2;
                i = i + 1;
            },
            None => {
                assert(e(b@, q as int) is None);
                assert(end_seq(b@, q as int, (n - i) as nat, e) is None);
                return None;
            },
        }
    }
    proof {
        lemma_at_join(b@, p as int, ser_u64(n), ser_seq(v@, f));
    }
    Some((v, q))
}

// ---------------------------------------------------------------- block

pub open spec fn ser_block(x: Block) -> Seq<u8> {
    ser_header(x.header) + ser_vec(x.inputs@, input_ser_fn()) + ser_vec(
        x.outputs@,
        output_ser_fn(),
    ) + ser_vec(x.kernels@, kernel_ser_fn())
}

pub open spec fn end_block(s: Seq<u8>, p: int) -> Option<int> {
    match end_header(s, p) {
        Some(p1) => match end_vec(s, p1, input_end_fn()) {
            Some(p2) => match end_vec(s, p2, output_end_fn()) {
                Some(p3) => end_vec(s, p3, kernel_end_fn()),
                None => None,
            },
            None => None,
        },
        None => None,
    }
}

/// Every list in the block has a length that its count can hold.
pub open spec fn block_fits(x: Block) -> bool {
    &&& header_fits(x.header)
    &&& x.inputs@.len() <= u64::MAX
    &&& x.outputs@.len() <= u64::MAX
    &&& x.kernels@.len() <= u64::MAX
    &&& forall|i: int| 0 <= i < x.outputs@.len() ==> output_fits(#[trigger] x.outputs@[i])
}

pub proof fn lemma_block_end(s: Seq<u8>, p: int, x: Block)
    requires
        at(s, p, ser_block(x)),
        block_fits(x),
    ensures
        end_block(s, p) == Some(p + ser_block(x).len()),
{
    let a = ser_header(x.header);
    let b = ser_vec(x.inputs@, input_ser_fn());
    let c = ser_vec(x.outputs@, output_ser_fn());
    let d = ser_vec(x.kernels@, kernel_ser_fn());
    lemma_at_split(s, p, a + b + c, d);
    lemma_at_split(s, p, a + b, c);
    lemma_at_split(s, p, a, b);
    lemma_header_end(s, p, x.header);
    let yes_input = |i: Input| true;
    assert forall|y: Input, s2: Seq<u8>, p2: int| #[trigger]
        at(s2, p2, input_ser_fn()(y)) && yes_input(y) implies input_end_fn()(s2, p2) == Some(
        p2 + input_ser_fn()(y).len(),
    ) by {
        lemma_input_end(s2, p2, y);
    }
    lemma_vec_end(s, p + a.len(), x.inputs@, input_ser_fn(), input_end_fn(), yes_input);
    let ok_output = |o: Output| output_fits(o);
    assert forall|y: Output, s2: Seq<u8>, p2: int| #[trigger]
        at(s2, p2, output_ser_fn()(y)) && ok_output(y) implies output_end_fn()(s2, p2) == Some(
        p2 + output_ser_fn()(y).len(),
    ) by {
        lemma_output_end(s2, p2, y);
    }
    lemma_vec_end(s, p + (a + b).len(), x.outputs@, output_ser_fn(), output_end_fn(), ok_output);
    let yes_kernel = |k: TxKernel| true;
    assert forall|y: TxKernel, s2: Seq<u8>, p2: int| #[trigger]
        at(s2, p2, kernel_ser_fn()(y)) && yes_kernel(y) implies kernel_end_fn()(s2, p2) == Some(
        p2 + kernel_ser_fn()(y).len(),
    ) by {
        lemma_kernel_end(s2, p2, y);
    }
    lemma_vec_end(s, p + (a + b + c).len(), x.kernels@, kernel_ser_fn(), kernel_end_fn(), yes_kernel);
}

pub fn write_block(out: &mut Vec<u8>, x: &Block)
    ensures
        final(out)@ == old(out)@ + ser_block(*x),
{
    write_header(out, &x.header);
    write_inputs(out, &x.inputs);
    write_outputs(out, &x.outputs);
    write_kernels(out, &x.kernels);
    assert(out@ =~= old(out)@ + ser_block(*x));
}

pub fn read_block(b: &Vec<u8>, p: usize) -> (r: Option<(Block, usize)>)
    ensures
        match r {
            Some((x, q)) => end_block(b@, p as int) == Some(q as int) && read_ok(
                b@,
                p as int,
                q as int,
                ser_block(x),
            ) && block_fits(x),
            None => end_block(b@, p as int) is None,
        },
{
    let (header, p1) = match read_header(b, p) {
        Some(x) => x,
        None => return None,
    };
    let (inputs, p2) = match read_inputs(b, p1) {
        Some(x) => x,
        None => return None,
    };
    let (outputs, p3) = match read_outputs(b, p2) {
        Some(x) => x,
        None => return None,
    };
    let (kernels, p4) = match read_kernels(b, p3) {
        Some(x) => x,
        None => return None,
    };
    let ghost a = ser_header(header);
    let ghost bb = ser_vec(inputs@, input_ser_fn());
    let ghost c = ser_vec(outputs@, output_ser_fn());
    proof {
        lemma_at_join(b@, p as int, a, bb);
        lemma_at_join(b@, p as int, a + bb, c);
        lemma_at_join(b@, p as int, a + bb + c, ser_vec(kernels@, kernel_ser_fn()));
    }
    Some((Block { header, inputs, outputs, kernels }, p4))
}

// ---------------------------------------------------------------- whole records

pub open spec fn tip_fits(t: Tip) -> bool {
    true
}

pub open spec fn sums_fits(x: BlockSums) -> bool {
    true
}

pub open spec fn u64_fits(x: u64) -> bool {
    true
}

proof fn lemma_tip_end(s: Seq<u8>, p: int, t: Tip)
    requires
        at(s, p, ser_tip(t)),
    ensures
        end_fixed(s, p, 96) == Some(p + ser_tip(t).len()),
{
}

proof fn lemma_sums_end(s: Seq<u8>, p: int, x: BlockSums)
    requires
        at(s, p, ser_sums(x)),
    ensures
        end_fixed(s, p, 66) == Some(p + ser_sums(x).len()),
{
}

pub fn tip_to_bytes(x: &Tip) -> (r: Vec<u8>)
    ensures
        r@ == ser_tip(*x),
{
    let mut out: Vec<u8> = Vec::new();
    write_tip(&mut out, x);
    assert(out@ =~= ser_tip(*x));
    out
}

/// Decodes a record that holds exactly one encoded value.
pub fn tip_from_bytes(b: &Vec<u8>) -> (r: Option<Tip>)
    ensures
        match r {
            Some(x) => ser_tip(x) == b@,
            None => forall|x: Tip| tip_fits(x) ==> ser_tip(x) != b@,
        },
{
    proof {
        assert(b@.subrange(0, b@.len() as int) =~= b@);
    }
    match read_tip(b, 0) {
        Some((x, q)) => {
            if q == b.len() {
                Some(x)
            } else {
                proof {
                    assert forall|y: Tip| tip_fits(y) implies ser_tip(y) != b@ by {
                        if ser_tip(y) == b@ {
                            lemma_tip_end(b@, 0, y);
                        }
                    }
                }
                None
            }
        },
        None => {
            proof {
                assert forall|y: Tip| tip_fits(y) implies ser_tip(y) != b@ by {
                    if ser_tip(y) == b@ {
                        lemma_tip_end(b@, 0, y);
                    }
                }
            }
            None
        },
    }
}

pub fn sums_to_bytes(x: &BlockSums) -> (r: Vec<u8>)
    ensures
        r@ == ser_sums(*x),
{
    let mut out: Vec<u8> = Vec::new();
    write_sums(&mut out, x);
    assert(out@ =~= ser_sums(*x));
    out
}

/// Decodes a record that holds exactly one encoded value.
pub fn sums_from_bytes(b: &Vec<u8>) -> (r: Option<BlockSums>)
    ensures
        match r {
            Some(x) => ser_sums(x) == b@,
            None => forall|x: BlockSums| sums_fits(x) ==> ser_sums(x) != b@,
        },
{
    proof {
        assert(b@.subrange(0, b@.len() as int) =~= b@);
    }
    match read_sums(b, 0) {
        Some((x, q)) => {
            if q == b.len() {
                Some(x)
            } else {
                proof {
                    assert forall|y: BlockSums| sums_fits(y) implies ser_sums(y) != b@ by {
                        if ser_sums(y) == b@ {
                            lemma_sums_end(b@, 0, y);
                        }
                    }
                }
                None
            }
        },
        None => {
            proof {
                assert forall|y: BlockSums| sums_fits(y) implies ser_sums(y) != b@ by {
                    if ser_sums(y) == b@ {
                        lemma_sums_end(b@, 0, y);
                    }
                }
            }
            None
        },
    }
}

pub fn pos_to_bytes(x: &u64) -> (r: Vec<u8>)
    ensures
        r@ == ser_u64(*x),
{
    let mut out: Vec<u8> = Vec::new();
    write_u64(&mut out, *x);
    assert(out@ =~= ser_u64(*x));
    out
}

/// Decodes a record that holds exactly one encoded value.
pub fn pos_from_bytes(b: &Vec<u8>) -> (r: Option<u64>)
    ensures
        match r {
            Some(x) => ser_u64(x) == b@,
            None => forall|x: u64| u64_fits(x) ==> ser_u64(x) != b@,
        },
{
    proof {
        assert(b@.subrange(0, b@.len() as int) =~= b@);
    }
    match read_u64(b, 0) {
        Some((x, q)) => {
            if q == b.len() {
                Some(x)
            } else {
                proof {
                    assert forall|y: u64| u64_fits(y) implies ser_u64(y) != b@ by {
                        if ser_u64(y) == b@ {
                            lemma_u64_end(b@, 0, y);
                        }
                    }
                }
                None
            }
        },
        None => {
            proof {
                assert forall|y: u64| u64_fits(y) implies ser_u64(y) != b@ by {
                    if ser_u64(y) == b@ {
                        lemma_u64_end(b@, 0, y);
                    }
                }
            }
            None
        },
    }
}

pub fn header_to_bytes(x: &BlockHeader) -> (r: Vec<u8>)
    ensures
        r@ == ser_header(*x),
{
    let mut out: Vec<u8> = Vec::new();
    write_header(&mut out, x);
    assert(out@ =~= ser_header(*x));
    out
}

/// Decodes a record that holds exactly one encoded value.
pub fn header_from_bytes(b: &Vec<u8>) -> (r: Option<BlockHeader>)
    ensures
        match r {
            Some(x) => ser_header(x) == b@ && header_fits(x),
            None => forall|x: BlockHeader| header_fits(x) ==> ser_header(x) != b@,
        },
{
    proof {
        assert(b@.subrange(0, b@.len() as int) =~= b@);
    }
    match read_header(b, 0) {
        Some((x, q)) => {
            if q == b.len() {
                Some(x)
            } else {
                proof {
                    assert forall|y: BlockHeader| header_fits(y) implies ser_header(y) != b@ by {
                        if ser_header(y) == b@ {
                            lemma_header_end(b@, 0, y);
                        }
                    }
                }
                None
            }
        },
        None => {
            proof {
                assert forall|y: BlockHeader| header_fits(y) implies ser_header(y) != b@ by {
                    if ser_header(y) == b@ {
                        lemma_header_end(b@, 0, y);
                    }
                }
            }
            None
        },
    }
}

pub fn block_to_bytes(x: &Block) -> (r: Vec<u8>)
    ensures
        r@ == ser_block(*x),
{
    let mut out: Vec<u8> = Vec::new();
    write_block(&mut out, x);
    assert(out@ =~= ser_block(*x));
    out
}

/// No block encodes to bytes that a block reader does not read to the end.
proof fn lemma_no_block_encodes(b: Seq<u8>)
    requires
        end_block(b, 0) != Some(b.len() as int),
    ensures
        forall|x: Block| block_fits(x) ==> ser_block(x) != b,
{
    assert forall|x: Block| block_fits(x) implies ser_block(x) != b by {
        if ser_block(x) == b {
            assert(b.subrange(0, b.len() as int) =~= b);
            lemma_block_end(b, 0, x);
        }
    }
}

/// Decodes a record that holds exactly one encoded value.
pub fn block_from_bytes(b: &Vec<u8>) -> (r: Option<Block>)
    ensures
        match r {
            Some(x) => ser_block(x) == b@ && block_fits(x),
            None => forall|x: Block| block_fits(x) ==> ser_block(x) != b@,
        },
{
    match read_block(b, 0) {
        Some((x, q)) => {
            if q == b.len() {
                assert(b@.subrange(0, b@.len() as int) =~= b@);
                Some(x)
            } else {
                proof {
                    lemma_no_block_encodes(b@);
                }
                None
            }
        },
        None => {
            proof {
                lemma_no_block_encodes(b@);
            }
            None
        },
    }
}

// ---------------------------------------------------------------- header fields

proof fn lemma_fixed_layout(s: Seq<u8>, h: BlockHeader)
    requires
        at(s, 0, ser_header_fixed(h)),
    ensures
        le_u64(s, 0) == h.height,
        le_u64(s, 8) == h.timestamp as u64,
        s.subrange(16, 48) == h.prev_hash.0@,
        le_u64(s, 128) == h.total_difficulty.cuckatoo,
        le_u64(s, 136) == h.total_difficulty.progpow,
        le_u64(s, 144) == h.total_difficulty.randomx,
{
    let f1 = ser_u64(h.height);
    let f2 = f1 + ser_i64(h.timestamp);
    let f3 = f2 + h.prev_hash.0@;
    let f4 = f3 + h.output_root.0@;
    let f5 = f4 + h.kernel_root.0@;
    let f6 = f5 + ser_u64(h.output_mmr_size);
    let f7 = f6 + ser_u64(h.kernel_mmr_size);
    let d = h.total_difficulty;
    lemma_at_split(s, 0, f7, ser_difficulty(d));
    lemma_at_split(s, 0, f6, ser_u64(h.kernel_mmr_size));
    lemma_at_split(s, 0, f5, ser_u64(h.output_mmr_size));
    lemma_at_split(s, 0, f4, h.kernel_root.0@);
    lemma_at_split(s, 0, f3, h.output_root.0@);
    lemma_at_split(s, 0, f2, h.prev_hash.0@);
    lemma_at_split(s, 0, f1, ser_i64(h.timestamp));
    lemma_u64_end(s, 0, h.height);
    lemma_u64_end(s, 8, h.timestamp as u64);
    lemma_at_split(s, 128, ser_u64(d.cuckatoo) + ser_u64(d.progpow), ser_u64(d.randomx));
    lemma_at_split(s, 128, ser_u64(d.cuckatoo), ser_u64(d.progpow));
    lemma_u64_end(s, 128, d.cuckatoo);
    lemma_u64_end(s, 136, d.progpow);
    lemma_u64_end(s, 144, d.randomx);
}

proof fn lemma_pow_layout(s: Seq<u8>, p: int, w: ProofOfWork)
    requires
        at(s, p, ser_pow(w)),
        proof_fits(w.proof),
    ensures
        s[p] == match w.proof {
            Proof::CuckooProof { .. } => 0u8,
            Proof::ProgPowProof { .. } => 1u8,
            Proof::RandomXProof { .. } => 2u8,
        },
        w.proof is CuckooProof ==> s[p + 1] == w.proof->edge_bits,
        end_proof(s, p) == Some(p + ser_proof(w.proof).len()),
        le_u64(s, p + ser_proof(w.proof).len()) == w.secondary_scaling as u64,
{
    let pf = ser_proof(w.proof);
    let sc = ser_u32(w.secondary_scaling);
    lemma_at_split(s, p, pf + sc + ser_u64(w.nonce), w.seed@);
    lemma_at_split(s, p, pf + sc, ser_u64(w.nonce));
    lemma_at_split(s, p, pf, sc);
    lemma_proof_end(s, p, w.proof);
    lemma_u64_end(s, p + pf.len(), w.secondary_scaling as u64);
    match w.proof {
        Proof::CuckooProof { edge_bits, nonces } => {
            lemma_at_split(s, p, ser_u8(0) + ser_u8(edge_bits), ser_u64s(nonces@));
            lemma_at_split(s, p, ser_u8(0), ser_u8(edge_bits));
            lemma_u8_at(s, p, 0);
            lemma_u8_at(s, p + 1, edge_bits);
        },
        Proof::ProgPowProof { mix } => {
            lemma_at_split(s, p, ser_u8(1), mix@);
            lemma_u8_at(s, p, 1);
        },
        Proof::RandomXProof { hash } => {
            lemma_at_split(s, p, ser_u8(2), hash@);
            lemma_u8_at(s, p, 2);
        },
    }
}

proof fn lemma_policy_layout(s: Seq<u8>, p: int, bt: Policy)
    requires
        at(s, p, ser_policy(bt)),
    ensures
        le_u64(s, p) == bt.cuckatoo as u64,
        le_u64(s, p + 8) == bt.progpow as u64,
        le_u64(s, p + 16) == bt.randomx as u64,
{
    lemma_at_split(s, p, ser_u32(bt.cuckatoo) + ser_u32(bt.progpow), ser_u32(bt.randomx));
    lemma_at_split(s, p, ser_u32(bt.cuckatoo), ser_u32(bt.progpow));
    lemma_u64_end(s, p, bt.cuckatoo as u64);
    lemma_u64_end(s, p + 8, bt.progpow as u64);
    lemma_u64_end(s, p + 16, bt.randomx as u64);
}

/// Where the parts of a header's encoding `s` stand.
proof fn lemma_header_parts(s: Seq<u8>, h: BlockHeader)
    requires
        ser_header(h) == s,
    ensures
        at(s, 0, ser_header_fixed(h)),
        at(s, 152, ser_pow(h.pow)),
        at(s, 152 + ser_pow(h.pow).len() as int, ser_u8(h.policy)),
        at(s, 153 + ser_pow(h.pow).len() as int, ser_policy(h.bottles)),
{
    assert(s.subrange(0, s.len() as int) =~= s);
    let fixed = ser_header_fixed(h);
    let pw = ser_pow(h.pow);
    assert(fixed.len() == 152);
    lemma_at_split(s, 0, fixed + pw + ser_u8(h.policy), ser_policy(h.bottles));
    lemma_at_split(s, 0, fixed + pw, ser_u8(h.policy));
    lemma_at_split(s, 0, fixed, pw);
}

proof fn lemma_fixed_fields(a: BlockHeader, b: BlockHeader)
    requires
        ser_header(a) == ser_header(b),
    ensures
        a.height == b.height,
        a.timestamp == b.timestamp,
        a.prev_hash == b.prev_hash,
        a.total_difficulty == b.total_difficulty,
{
    let s = ser_header(a);
    lemma_header_parts(s, a);
    lemma_header_parts(s, b);
    lemma_fixed_layout(s, a);
    lemma_fixed_layout(s, b);
    let (x, y) = (a.timestamp, b.timestamp);
    assert(x as u64 == y as u64 ==> x == y) by (bit_vector);
    assert(a.prev_hash.0 =~= b.prev_hash.0);
}

proof fn lemma_pow_fields(s: Seq<u8>, a: ProofOfWork, b: ProofOfWork)
    requires
        at(s, 152, ser_pow(a)),
        at(s, 152, ser_pow(b)),
        proof_fits(a.proof),
        proof_fits(b.proof),
    ensures
        a.proof.spec_pow_type() == b.proof.spec_pow_type(),
        a.proof.spec_is_secondary() == b.proof.spec_is_secondary(),
        a.secondary_scaling == b.secondary_scaling,
        ser_pow(a).len() == ser_pow(b).len(),
{
    lemma_pow_layout(s, 152, a);
    lemma_pow_layout(s, 152, b);
}

proof fn lemma_tail_fields(s: Seq<u8>, p: int, a: BlockHeader, b: BlockHeader)
    requires
        at(s, p, ser_u8(a.policy)),
        at(s, p, ser_u8(b.policy)),
        at(s, p + 1, ser_policy(a.bottles)),
        at(s, p + 1, ser_policy(b.bottles)),
    ensures
        a.policy == b.policy,
        a.bottles == b.bottles,
{
    lemma_u8_at(s, p, a.policy);
    lemma_u8_at(s, p, b.policy);
    lemma_policy_layout(s, p + 1, a.bottles);
    lemma_policy_layout(s, p + 1, b.bottles);
}

/// Two headers with one encoding agree on every field that a walk over the
/// chain reads.
pub proof fn lemma_header_fields(a: BlockHeader, b: BlockHeader)
    requires
        ser_header(a) == ser_header(b),
        header_fits(a),
        header_fits(b),
    ensures
        a.height == b.height,
        a.timestamp == b.timestamp,
        a.prev_hash == b.prev_hash,
        a.total_difficulty == b.total_difficulty,
        a.pow.proof.spec_pow_type() == b.pow.proof.spec_pow_type(),
        a.pow.proof.spec_is_secondary() == b.pow.proof.spec_is_secondary(),
        a.pow.secondary_scaling == b.pow.secondary_scaling,
        a.policy == b.policy,
        a.bottles == b.bottles,
{
    let s = ser_header(a);
    lemma_fixed_fields(a, b);
    lemma_header_parts(s, a);
    lemma_header_parts(s, b);
    lemma_pow_fields(s, a.pow, b.pow);
    lemma_tail_fields(s, 152 + ser_pow(a.pow).len() as int, a, b);
}

// ---------------------------------------------------------------- equal encodings

/// The proofs are of one variant with equal contents; the nonces are equal
/// as sequences.
pub open spec fn same_proof(a: Proof, b: Proof) -> bool {
    match (a, b) {
        (Proof::CuckooProof { edge_bits: e1, nonces: n1 }, Proof::CuckooProof { edge_bits: e2, nonces: n2 }) => e1 == e2
            && n1@ == n2@,
        (Proof::ProgPowProof { mix: m1 }, Proof::ProgPowProof { mix: m2 }) => m1 == m2,
        (Proof::RandomXProof { hash: h1 }, Proof::RandomXProof { hash: h2 }) => h1 == h2,
        _ => false,
    }
}

/// The headers agree on every field.
pub open spec fn same_header(a: BlockHeader, b: BlockHeader) -> bool {
    &&& a.height == b.height
    &&& a.timestamp == b.timestamp
    &&& a.prev_hash == b.prev_hash
    &&& a.output_root == b.output_root
    &&& a.kernel_root == b.kernel_root
    &&& a.output_mmr_size == b.output_mmr_size
    &&& a.kernel_mmr_size == b.kernel_mmr_size
    &&& a.total_difficulty == b.total_difficulty
    &&& same_proof(a.pow.proof, b.pow.proof)
    &&& a.pow.secondary_scaling == b.pow.secondary_scaling
    &&& a.pow.nonce == b.pow.nonce
    &&& a.pow.seed == b.pow.seed
    &&& a.policy == b.policy
    &&& a.bottles == b.bottles
}

proof fn lemma_fixed_rest(s: Seq<u8>, h: BlockHeader)
    requires
        at(s, 0, ser_header_fixed(h)),
    ensures
        s.subrange(48, 80) == h.output_root.0@,
        s.subrange(80, 112) == h.kernel_root.0@,
        le_u64(s, 112) == h.output_mmr_size,
        le_u64(s, 120) == h.kernel_mmr_size,
{
    let f3 = ser_u64(h.height) + ser_i64(h.timestamp) + h.prev_hash.0@;
    let f4 = f3 + h.output_root.0@;
    let f5 = f4 + h.kernel_root.0@;
    let f6 = f5 + ser_u64(h.output_mmr_size);
    let f7 = f6 + ser_u64(h.kernel_mmr_size);
    lemma_at_split(s, 0, f7, ser_difficulty(h.total_difficulty));
    lemma_at_split(s, 0, f6, ser_u64(h.kernel_mmr_size));
    lemma_at_split(s, 0, f5, ser_u64(h.output_mmr_size));
    lemma_at_split(s, 0, f4, h.kernel_root.0@);
    lemma_at_split(s, 0, f3, h.output_root.0@);
    lemma_u64_end(s, 112, h.output_mmr_size);
    lemma_u64_end(s, 120, h.kernel_mmr_size);
}

proof fn lemma_pow_rest(s: Seq<u8>, p: int, w: ProofOfWork)
    requires
        at(s, p, ser_pow(w)),
    ensures
        at(s, p, ser_proof(w.proof)),
        le_u64(s, p + ser_proof(w.proof).len() + 8) == w.nonce,
        s.subrange(p + ser_proof(w.proof).len() + 16, p + ser_proof(w.proof).len() + 48) == w.seed@,
{
    let pf = ser_proof(w.proof);
    let sc = ser_u32(w.secondary_scaling);
    lemma_at_split(s, p, pf + sc + ser_u64(w.nonce), w.seed@);
    lemma_at_split(s, p, pf + sc, ser_u64(w.nonce));
    lemma_at_split(s, p, pf, sc);
    lemma_u64_end(s, p + pf.len() + 8, w.nonce);
}

proof fn lemma_ser_seq_len(v: Seq<u64>)
    ensures
        ser_seq(v, u64_ser_fn()).len() == 8 * v.len(),
    decreases v.len(),
{
    if v.len() > 0 {
        lemma_ser_seq_len(v.drop_last());
    }
}

proof fn lemma_u64_seq_injective(a: Seq<u64>, b: Seq<u64>)
    requires
        a.len() == b.len(),
        ser_seq(a, u64_ser_fn()) == ser_seq(b, u64_ser_fn()),
    ensures
        a == b,
    decreases a.len(),
{
    if a.len() > 0 {
        let f = u64_ser_fn();
        let s = ser_seq(a, f);
        lemma_ser_seq_len(a.drop_last());
        lemma_ser_seq_len(b.drop_last());
        assert(s.subrange(0, s.len() as int) =~= s);
        lemma_at_split(s, 0, ser_seq(a.drop_last(), f), f(a.last()));
        lemma_at_split(s, 0, ser_seq(b.drop_last(), f), f(b.last()));
        let n = ser_seq(a.drop_last(), f).len() as int;
        lemma_u64_end(s, n, a.last());
        lemma_u64_end(s, n, b.last());
        assert(ser_seq(a.drop_last(), f) =~= s.subrange(0, n));
        assert(ser_seq(b.drop_last(), f) =~= s.subrange(0, n));
        lemma_u64_seq_injective(a.drop_last(), b.drop_last());
        assert(a =~= a.drop_last().push(a.last()));
        assert(b =~= b.drop_last().push(b.last()));
    }
}

proof fn lemma_proof_injective(a: Proof, b: Proof)
    requires
        ser_proof(a) == ser_proof(b),
        proof_fits(a),
        proof_fits(b),
    ensures
        same_proof(a, b),
{
    let s = ser_proof(a);
    assert(s.subrange(0, s.len() as int) =~= s);
    match (a, b) {
        (Proof::CuckooProof { edge_bits: e1, nonces: n1 }, Proof::CuckooProof { edge_bits: e2, nonces: n2 }) => {
            lemma_at_split(s, 0, ser_u8(0) + ser_u8(e1), ser_u64s(n1@));
            lemma_at_split(s, 0, ser_u8(0) + ser_u8(e2), ser_u64s(n2@));
            lemma_at_split(s, 0, ser_u8(0), ser_u8(e1));
            lemma_at_split(s, 0, ser_u8(0), ser_u8(e2));
            lemma_u8_at(s, 1, e1);
            lemma_u8_at(s, 1, e2);
            let t = s.subrange(2, s.len() as int);
            assert(ser_u64s(n1@) =~= t);
            assert(ser_u64s(n2@) =~= t);
            assert(t.subrange(0, t.len() as int) =~= t);
            lemma_at_split(t, 0, ser_u64(n1@.len() as u64), ser_seq(n1@, u64_ser_fn()));
            lemma_at_split(t, 0, ser_u64(n2@.len() as u64), ser_seq(n2@, u64_ser_fn()));
            lemma_u64_end(t, 0, n1@.len() as u64);
            lemma_u64_end(t, 0, n2@.len() as u64);
            assert(ser_seq(n1@, u64_ser_fn()) =~= t.subrange(8, t.len() as int));
            assert(ser_seq(n2@, u64_ser_fn()) =~= t.subrange(8, t.len() as int));
            lemma_u64_seq_injective(n1@, n2@);
        },
        (Proof::ProgPowProof { mix: m1 }, Proof::ProgPowProof { mix: m2 }) => {
            assert(m1@ =~= s.subrange(1, 33));
            assert(m2@ =~= s.subrange(1, 33));
            assert(m1 =~= m2);
        },
        (Proof::RandomXProof { hash: h1 }, Proof::RandomXProof { hash: h2 }) => {
            assert(h1@ =~= s.subrange(1, 33));
            assert(h2@ =~= s.subrange(1, 33));
            assert(h1 =~= h2);
        },
        _ => {
            assert(s[0] == ser_proof(a)[0]);
            assert(s[0] == ser_proof(b)[0]);
        },
    }
}

/// Two headers with one encoding agree on every field.
pub proof fn lemma_header_equal(a: BlockHeader, b: BlockHeader)
    requires
        ser_header(a) == ser_header(b),
        header_fits(a),
        header_fits(b),
    ensures
        same_header(a, b),
{
    let s = ser_header(a);
    lemma_header_fields(a, b);
    lemma_header_parts(s, a);
    lemma_header_parts(s, b);
    lemma_fixed_rest(s, a);
    lemma_fixed_rest(s, b);
    assert(a.output_root.0 =~= b.output_root.0);
    assert(a.kernel_root.0 =~= b.kernel_root.0);
    lemma_pow_layout(s, 152, a.pow);
    lemma_pow_layout(s, 152, b.pow);
    lemma_pow_rest(s, 152, a.pow);
    lemma_pow_rest(s, 152, b.pow);
    let l = ser_proof(a.pow.proof).len() as int;
    assert(ser_proof(a.pow.proof) =~= s.subrange(152, 152 + l));
    assert(ser_proof(b.pow.proof) =~= s.subrange(152, 152 + l));
    lemma_proof_injective(a.pow.proof, b.pow.proof);
    assert(a.pow.seed =~= b.pow.seed);
}

// ---------------------------------------------------------------- equal block encodings

/// Two lists whose encodings are equal at `p` agree element by element on
/// `same`, where equal element encodings give `same` elements.
proof fn lemma_seq_injective<T>(
    s: Seq<u8>,
    p: int,
    a: Seq<T>,
    b: Seq<T>,
    f: spec_fn(T) -> Seq<u8>,
    e: spec_fn(Seq<u8>, int) -> Option<int>,
    ok: spec_fn(T) -> bool,
    same: spec_fn(T, T) -> bool,
)
    requires
        a.len() == b.len(),
        at(s, p, ser_seq(a, f)),
        at(s, p, ser_seq(b, f)),
        forall|i: int| 0 <= i < a.len() ==> #[trigger] ok(a[i]),
        forall|i: int| 0 <= i < b.len() ==> #[trigger] ok(b[i]),
        forall|x: T, s2: Seq<u8>, p2: int| #[trigger]
            at(s2, p2, f(x)) && ok(x) ==> e(s2, p2) == Some(p2 + f(x).len()),
        forall|x: T, y: T| ok(x) && ok(y) && #[trigger] f(x) == #[trigger] f(y) ==> same(x, y),
    ensures
        forall|i: int| 0 <= i < a.len() ==> same(#[trigger] a[i], b[i]),
        ser_seq(a, f) == ser_seq(b, f),
    decreases a.len(),
{
    if a.len() == 0 {
        assert(ser_seq(a, f) =~= ser_seq(b, f));
    } else {
        let a1 = a.drop_last();
        let b1 = b.drop_last();
        lemma_at_split(s, p, ser_seq(a1, f), f(a.last()));
        lemma_at_split(s, p, ser_seq(b1, f), f(b.last()));
        assert(forall|i: int| 0 <= i < a1.len() ==> a1[i] == a[i]);
        assert(forall|i: int| 0 <= i < b1.len() ==> b1[i] == b[i]);
        assert(ok(a[a.len() - 1]) && ok(b[b.len() - 1]));
        lemma_seq_injective(s, p, a1, b1, f, e, ok, same);
        let q = p + ser_seq(a1, f).len();
        assert(f(a.last()) =~= s.subrange(q, q + f(a.last()).len()));
        let ea = e(s, q);
        assert(ea == Some(q + f(a.last()).len()));
        assert(ea == Some(q + f(b.last()).len()));
        assert(f(b.last()) =~= s.subrange(q, q + f(b.last()).len()));
        assert(same(a.last(), b.last()));
        assert forall|i: int| 0 <= i < a.len() implies same(#[trigger] a[i], b[i]) by {
            if i < a.len() - 1 {
                assert(a1[i] == a[i] && b1[i] == b[i]);
            }
        }
    }
}

/// Two lists whose full encodings (count and elements) are equal at `p`
/// have one length and agree element by element on `same`.
proof fn lemma_vec_injective<T>(
    s: Seq<u8>,
    p: int,
    a: Seq<T>,
    b: Seq<T>,
    f: spec_fn(T) -> Seq<u8>,
    e: spec_fn(Seq<u8>, int) -> Option<int>,
    ok: spec_fn(T) -> bool,
    same: spec_fn(T, T) -> bool,
)
    requires
        a.len() <= u64::MAX,
        b.len() <= u64::MAX,
        at(s, p, ser_vec(a, f)),
        at(s, p, ser_vec(b, f)),
        forall|i: int| 0 <= i < a.len() ==> #[trigger] ok(a[i]),
        forall|i: int| 0 <= i < b.len() ==> #[trigger] ok(b[i]),
        forall|x: T, s2: Seq<u8>, p2: int| #[trigger]
            at(s2, p2, f(x)) && ok(x) ==> e(s2, p2) == Some(p2 + f(x).len()),
        forall|x: T, y: T| ok(x) && ok(y) && #[trigger] f(x) == #[trigger] f(y) ==> same(x, y),
    ensures
        a.len() == b.len(),
        forall|i: int| 0 <= i < a.len() ==> same(#[trigger] a[i], b[i]),
        ser_vec(a, f) == ser_vec(b, f),
{
    lemma_at_split(s, p, ser_u64(a.len() as u64), ser_seq(a, f));
    lemma_at_split(s, p, ser_u64(b.len() as u64), ser_seq(b, f));
    lemma_u64_end(s, p, a.len() as u64);
    lemma_u64_end(s, p, b.len() as u64);
    lemma_seq_injective(s, p + 8, a, b, f, e, ok, same);
}

pub open spec fn same_input() -> spec_fn(Input, Input) -> bool {
    |x: Input, y: Input| x == y
}

pub open spec fn same_kernel() -> spec_fn(TxKernel, TxKernel) -> bool {
    |x: TxKernel, y: TxKernel| x == y
}

/// The outputs agree on every field; the range proofs are equal as
/// sequences.
pub open spec fn same_output() -> spec_fn(Output, Output) -> bool {
    |x: Output, y: Output| x.features == y.features && x.commit == y.commit && x.proof@ == y.proof@
}

proof fn lemma_input_injective(x: Input, y: Input)
    requires
        ser_input(x) == ser_input(y),
    ensures
        x == y,
{
    let s = ser_input(x);
    assert(s[0] == output_features_tag(x.features) && s[0] == output_features_tag(y.features));
    assert(x.commit.0@ =~= s.subrange(1, 34));
    assert(y.commit.0@ =~= s.subrange(1, 34));
    assert(x.commit.0 =~= y.commit.0);
}

proof fn lemma_kernel_injective(x: TxKernel, y: TxKernel)
    requires
        ser_kernel(x) == ser_kernel(y),
    ensures
        x == y,
{
    let s = ser_kernel(x);
    assert(s.subrange(0, s.len() as int) =~= s);
    assert(s[0] == kernel_features_tag(x.features) && s[0] == kernel_features_tag(y.features));
    assert(at(s, 1, ser_u64(x.fee)) && at(s, 1, ser_u64(y.fee))) by {
        assert(s.subrange(1, 9) =~= ser_u64(x.fee));
        assert(s.subrange(1, 9) =~= ser_u64(y.fee));
    }
    assert(at(s, 9, ser_u64(x.lock_height)) && at(s, 9, ser_u64(y.lock_height))) by {
        assert(s.subrange(9, 17) =~= ser_u64(x.lock_height));
        assert(s.subrange(9, 17) =~= ser_u64(y.lock_height));
    }
    lemma_u64_end(s, 1, x.fee);
    lemma_u64_end(s, 1, y.fee);
    lemma_u64_end(s, 9, x.lock_height);
    lemma_u64_end(s, 9, y.lock_height);
    assert(x.excess.0@ =~= s.subrange(17, 50));
    assert(y.excess.0@ =~= s.subrange(17, 50));
    assert(x.excess.0 =~= y.excess.0);
    assert(x.excess_sig@ =~= s.subrange(50, 114));
    assert(y.excess_sig@ =~= s.subrange(50, 114));
    assert(x.excess_sig =~= y.excess_sig);
}

proof fn lemma_output_injective(x: Output, y: Output)
    requires
        ser_output(x) == ser_output(y),
    ensures
        same_output()(x, y),
{
    let s = ser_output(x);
    assert(s[0] == output_features_tag(x.features) && s[0] == output_features_tag(y.features));
    assert(x.commit.0@ =~= s.subrange(1, 34));
    assert(y.commit.0@ =~= s.subrange(1, 34));
    assert(x.commit.0 =~= y.commit.0);
    assert(ser_bytes(x.proof@) =~= s.subrange(34, s.len() as int));
    assert(ser_bytes(y.proof@) =~= s.subrange(34, s.len() as int));
    assert(x.proof@ =~= s.subrange(42, s.len() as int));
    assert(y.proof@ =~= s.subrange(42, s.len() as int));
}

/// The blocks agree on every field; range proofs and nonces are equal as
/// sequences.
pub open spec fn same_block(a: Block, b: Block) -> bool {
    &&& same_header(a.header, b.header)
    &&& a.inputs@ == b.inputs@
    &&& a.kernels@ == b.kernels@
    &&& a.outputs@.len() == b.outputs@.len()
    &&& forall|i: int| 0 <= i < a.outputs@.len() ==> same_output()(#[trigger] a.outputs@[i], b.outputs@[i])
}

proof fn lemma_inputs_equal(s: Seq<u8>, p: int, a: Seq<Input>, b: Seq<Input>)
    requires
        a.len() <= u64::MAX,
        b.len() <= u64::MAX,
        at(s, p, ser_vec(a, input_ser_fn())),
        at(s, p, ser_vec(b, input_ser_fn())),
    ensures
        a == b,
{
    let yes = |i: Input| true;
    assert forall|y: Input, s2: Seq<u8>, p2: int| #[trigger]
        at(s2, p2, input_ser_fn()(y)) && yes(y) implies input_end_fn()(s2, p2) == Some(
        p2 + input_ser_fn()(y).len(),
    ) by {
        lemma_input_end(s2, p2, y);
    }
    assert forall|x: Input, y: Input| yes(x) && yes(y) && #[trigger] input_ser_fn()(x)
        == #[trigger] input_ser_fn()(y) implies same_input()(x, y) by {
        lemma_input_injective(x, y);
    }
    lemma_vec_injective(s, p, a, b, input_ser_fn(), input_end_fn(), yes, same_input());
    assert(a =~= b);
}

proof fn lemma_kernels_equal(s: Seq<u8>, p: int, a: Seq<TxKernel>, b: Seq<TxKernel>)
    requires
        a.len() <= u64::MAX,
        b.len() <= u64::MAX,
        at(s, p, ser_vec(a, kernel_ser_fn())),
        at(s, p, ser_vec(b, kernel_ser_fn())),
    ensures
        a == b,
{
    let yes = |k: TxKernel| true;
    assert forall|y: TxKernel, s2: Seq<u8>, q: int| #[trigger]
        at(s2, q, kernel_ser_fn()(y)) && yes(y) implies kernel_end_fn()(s2, q) == Some(
        q + kernel_ser_fn()(y).len(),
    ) by {
        lemma_kernel_end(s2, q, y);
    }
    assert forall|x: TxKernel, y: TxKernel| yes(x) && yes(y) && #[trigger] kernel_ser_fn()(x)
        == #[trigger] kernel_ser_fn()(y) implies same_kernel()(x, y) by {
        lemma_kernel_injective(x, y);
    }
    lemma_vec_injective(s, p, a, b, kernel_ser_fn(), kernel_end_fn(), yes, same_kernel());
    assert(a =~= b);
}

proof fn lemma_outputs_equal(s: Seq<u8>, p: int, a: Seq<Output>, b: Seq<Output>)
    requires
        a.len() <= u64::MAX,
        b.len() <= u64::MAX,
        forall|i: int| 0 <= i < a.len() ==> output_fits(#[trigger] a[i]),
        forall|i: int| 0 <= i < b.len() ==> output_fits(#[trigger] b[i]),
        at(s, p, ser_vec(a, output_ser_fn())),
        at(s, p, ser_vec(b, output_ser_fn())),
    ensures
        a.len() == b.len(),
        forall|i: int| 0 <= i < a.len() ==> same_output()(#[trigger] a[i], b[i]),
        ser_vec(a, output_ser_fn()) == ser_vec(b, output_ser_fn()),
{
    let ok = |o: Output| output_fits(o);
    assert forall|y: Output, s2: Seq<u8>, q: int| #[trigger]
        at(s2, q, output_ser_fn()(y)) && ok(y) implies output_end_fn()(s2, q) == Some(
        q + output_ser_fn()(y).len(),
    ) by {
        lemma_output_end(s2, q, y);
    }
    assert forall|x: Output, y: Output| ok(x) && ok(y) && #[trigger] output_ser_fn()(x)
        == #[trigger] output_ser_fn()(y) implies same_output()(x, y) by {
        lemma_output_injective(x, y);
    }
    assert(forall|i: int| 0 <= i < a.len() ==> #[trigger] ok(a[i]));
    assert(forall|i: int| 0 <= i < b.len() ==> #[trigger] ok(b[i]));
    lemma_vec_injective(s, p, a, b, output_ser_fn(), output_end_fn(), ok, same_output());
}

/// Where the encodings of two blocks are equal, their header encodings are
/// equal, and so are the parts that follow.
proof fn lemma_block_parts(a: Block, b: Block)
    requires
        ser_block(a) == ser_block(b),
        header_fits(a.header),
        header_fits(b.header),
    ensures
        ser_header(a.header) == ser_header(b.header),
        at(ser_block(a), ser_header(a.header).len() as int, ser_vec(a.inputs@, input_ser_fn())),
        at(ser_block(a), ser_header(a.header).len() as int, ser_vec(b.inputs@, input_ser_fn())),
{
    let s = ser_block(a);
    assert(s.subrange(0, s.len() as int) =~= s);
    let ha = ser_header(a.header);
    let hb = ser_header(b.header);
    let ia = ser_vec(a.inputs@, input_ser_fn());
    let ib = ser_vec(b.inputs@, input_ser_fn());
    let oa = ser_vec(a.outputs@, output_ser_fn());
    let ob = ser_vec(b.outputs@, output_ser_fn());
    lemma_at_split(s, 0, ha + ia + oa, ser_vec(a.kernels@, kernel_ser_fn()));
    lemma_at_split(s, 0, ha + ia, oa);
    lemma_at_split(s, 0, ha, ia);
    lemma_at_split(s, 0, hb + ib + ob, ser_vec(b.kernels@, kernel_ser_fn()));
    lemma_at_split(s, 0, hb + ib, ob);
    lemma_at_split(s, 0, hb, ib);
    lemma_header_end(s, 0, a.header);
    lemma_header_end(s, 0, b.header);
    assert(ha =~= hb);
}

/// The lists after equal inputs are at one position in both encodings.
proof fn lemma_block_tail(a: Block, b: Block)
    requires
        ser_block(a) == ser_block(b),
        ser_header(a.header) == ser_header(b.header),
        a.inputs@ == b.inputs@,
    ensures
        at(ser_block(a), (ser_header(a.header) + ser_vec(a.inputs@, input_ser_fn())).len() as int, ser_vec(a.outputs@, output_ser_fn())),
        at(ser_block(a), (ser_header(a.header) + ser_vec(a.inputs@, input_ser_fn())).len() as int, ser_vec(b.outputs@, output_ser_fn())),
{
    let s = ser_block(a);
    assert(s.subrange(0, s.len() as int) =~= s);
    let ha = ser_header(a.header);
    let ia = ser_vec(a.inputs@, input_ser_fn());
    lemma_at_split(s, 0, ha + ia + ser_vec(a.outputs@, output_ser_fn()), ser_vec(a.kernels@, kernel_ser_fn()));
    lemma_at_split(s, 0, ha + ia, ser_vec(a.outputs@, output_ser_fn()));
    lemma_at_split(s, 0, ha + ia + ser_vec(b.outputs@, output_ser_fn()), ser_vec(b.kernels@, kernel_ser_fn()));
    lemma_at_split(s, 0, ha + ia, ser_vec(b.outputs@, output_ser_fn()));
}

/// The kernels follow equal outputs at one position in both encodings.
proof fn lemma_block_kernels_at(a: Block, b: Block)
    requires
        ser_block(a) == ser_block(b),
        ser_header(a.header) == ser_header(b.header),
        a.inputs@ == b.inputs@,
        ser_vec(a.outputs@, output_ser_fn()) == ser_vec(b.outputs@, output_ser_fn()),
    ensures
        at(ser_block(a), (ser_header(a.header) + ser_vec(a.inputs@, input_ser_fn()) + ser_vec(a.outputs@, output_ser_fn())).len() as int, ser_vec(a.kernels@, kernel_ser_fn())),
        at(ser_block(a), (ser_header(a.header) + ser_vec(a.inputs@, input_ser_fn()) + ser_vec(a.outputs@, output_ser_fn())).len() as int, ser_vec(b.kernels@, kernel_ser_fn())),
{
    let s = ser_block(a);
    assert(s.subrange(0, s.len() as int) =~= s);
    let front = ser_header(a.header) + ser_vec(a.inputs@, input_ser_fn()) + ser_vec(a.outputs@, output_ser_fn());
    lemma_at_split(s, 0, front, ser_vec(a.kernels@, kernel_ser_fn()));
    lemma_at_split(s, 0, front, ser_vec(b.kernels@, kernel_ser_fn()));
}

/// Two blocks with one encoding agree on every field.
pub proof fn lemma_block_equal(a: Block, b: Block)
    requires
        ser_block(a) == ser_block(b),
        block_fits(a),
        block_fits(b),
    ensures
        same_block(a, b),
{
    let s = ser_block(a);
    lemma_block_parts(a, b);
    lemma_header_equal(a.header, b.header);
    let p1 = ser_header(a.header).len() as int;
    lemma_inputs_equal(s, p1, a.inputs@, b.inputs@);
    lemma_block_tail(a, b);
    let p2 = (ser_header(a.header) + ser_vec(a.inputs@, input_ser_fn())).len() as int;
    lemma_outputs_equal(s, p2, a.outputs@, b.outputs@);
    lemma_block_kernels_at(a, b);
    let p3 = (ser_header(a.header) + ser_vec(a.inputs@, input_ser_fn()) + ser_vec(a.outputs@, output_ser_fn())).len() as int;
    lemma_kernels_equal(s, p3, a.kernels@, b.kernels@);
}

} // verus!
