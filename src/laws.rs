//! Properties that relate several operations of the store and the walks.
use vstd::prelude::*;
use crate::hash::{blake2b_256, header_hash};
use crate::iter::{
    all_samples, bottles_from, parent, policy_scan, sample, typed_samples, typed_scan, typed_walk,
    difficulty_of, POLICY_SEARCH_LIMIT,
};
use crate::records::{
    block_fits, header_fits, lemma_block_equal, lemma_header_end, lemma_header_equal, same_block,
    same_header, ser_block,
    ser_header, ser_sums, ser_tip,
};
use crate::ser::ser_u64;
use crate::store::{
    bitmap_cached, bitmap_key, block_codec, block_key, block_valid, header_codec, header_in,
    header_key, header_valid, input_positions, lemma_pos_injective, lemma_tip_injective,
    pointer_key, pos_codec, pos_key, pos_valid, read_result, sums_codec, sums_key,
    sums_valid, tip_codec, tip_in, tip_valid, Error, Lookup, HEADER_HEAD_PREFIX, HEAD_PREFIX,
};
use crate::types::{Block, BlockHeader, BlockSums, Commitment, PoWType, Tip};

verus! {

// ---------------------------------------------------------------- round trip

/// A tip read back from where it was put is the tip put.
pub proof fn lemma_round_trip_tip(m: Map<Seq<u8>, Seq<u8>>, k: Seq<u8>, what: Lookup, t: Tip, r: Result<Tip, Error>)
    requires
        read_result(m.insert(k, ser_tip(t)), k, what, r, tip_codec(), tip_valid()),
    ensures
        r == Ok::<Tip, Error>(t),
{
    match r {
        Ok(x) => lemma_tip_injective(x, t),
        Err(_) => assert(tip_valid()(t)),
    }
}

/// A header read back from where it was put agrees with the header put on
/// every field.
pub proof fn lemma_round_trip_header(
    m: Map<Seq<u8>, Seq<u8>>,
    h: crate::types::Hash,
    x: BlockHeader,
    r: Result<BlockHeader, Error>,
)
    requires
        header_fits(x),
        read_result(m.insert(header_key(h), ser_header(x)), header_key(h), Lookup::BlockHeader(h), r, header_codec(), header_valid()),
        r is Ok ==> header_fits(r->Ok_0),
    ensures
        r is Ok,
        ser_header(r->Ok_0) == ser_header(x),
        same_header(r->Ok_0, x),
{
    match r {
        Ok(y) => lemma_header_equal(y, x),
        Err(_) => assert(header_valid()(x)),
    }
}

/// A block read back from where it was put agrees with the block put on
/// every field.
pub proof fn lemma_round_trip_block(m: Map<Seq<u8>, Seq<u8>>, h: crate::types::Hash, b: Block, r: Result<Block, Error>)
    requires
        block_fits(b),
        read_result(m.insert(block_key(h), ser_block(b)), block_key(h), Lookup::Block(h), r, block_codec(), block_valid()),
        r is Ok ==> block_fits(r->Ok_0),
    ensures
        r is Ok,
        ser_block(r->Ok_0) == ser_block(b),
        same_block(r->Ok_0, b),
{
    match r {
        Ok(y) => lemma_block_equal(y, b),
        Err(_) => assert(block_valid()(b)),
    }
}

/// Block sums read back from where they were put are the sums put.
pub proof fn lemma_round_trip_sums(m: Map<Seq<u8>, Seq<u8>>, h: crate::types::Hash, x: BlockSums, r: Result<BlockSums, Error>)
    requires
        read_result(m.insert(sums_key(h), ser_sums(x)), sums_key(h), Lookup::BlockSums(h), r, sums_codec(), sums_valid()),
    ensures
        r == Ok::<BlockSums, Error>(x),
{
    match r {
        Ok(y) => {
            let s = ser_sums(x);
            assert(s.subrange(0, 33) =~= x.utxo_sum.0@);
            assert(s.subrange(0, 33) =~= y.utxo_sum.0@);
            assert(s.subrange(33, 66) =~= x.kernel_sum.0@);
            assert(s.subrange(33, 66) =~= y.kernel_sum.0@);
            assert(x.utxo_sum.0 =~= y.utxo_sum.0);
            assert(x.kernel_sum.0 =~= y.kernel_sum.0);
        },
        Err(_) => assert(sums_valid()(x)),
    }
}

/// An output position read back from where it was put is the position put.
pub proof fn lemma_round_trip_pos(m: Map<Seq<u8>, Seq<u8>>, c: Commitment, pos: u64, r: Result<u64, Error>)
    requires
        read_result(m.insert(pos_key(c), ser_u64(pos)), pos_key(c), Lookup::OutputPos(c), r, pos_codec(), pos_valid()),
    ensures
        r == Ok::<u64, Error>(pos),
{
    match r {
        Ok(y) => lemma_pos_injective(y, pos),
        Err(_) => assert(pos_valid()(pos)),
    }
}

// ---------------------------------------------------------------- pointers

/// After `save_head(t)`, the head and the header head both name `t`.
pub proof fn lemma_save_head_sets_both(m: Map<Seq<u8>, Seq<u8>>, t: Tip)
    ensures
        tip_in(
            m.insert(pointer_key(HEAD_PREFIX), ser_tip(t)).insert(pointer_key(HEADER_HEAD_PREFIX), ser_tip(t)),
            pointer_key(HEAD_PREFIX),
        ) == Some(t),
        tip_in(
            m.insert(pointer_key(HEAD_PREFIX), ser_tip(t)).insert(pointer_key(HEADER_HEAD_PREFIX), ser_tip(t)),
            pointer_key(HEADER_HEAD_PREFIX),
        ) == Some(t),
{
    let m2 = m.insert(pointer_key(HEAD_PREFIX), ser_tip(t)).insert(pointer_key(HEADER_HEAD_PREFIX), ser_tip(t));
    assert(pointer_key(HEAD_PREFIX)[0] != pointer_key(HEADER_HEAD_PREFIX)[0]);
    assert(m2[pointer_key(HEAD_PREFIX)] == ser_tip(t));
    let a = choose|x: Tip| ser_tip(x) == m2[pointer_key(HEAD_PREFIX)];
    lemma_tip_injective(a, t);
    let b = choose|x: Tip| ser_tip(x) == m2[pointer_key(HEADER_HEAD_PREFIX)];
    lemma_tip_injective(b, t);
}

// ---------------------------------------------------------------- headers and bodies

/// Every stored block has its header stored under the same address, that
/// address is the digest of the header, and the header record is the start
/// of the block record, so it is the block's own header.
pub open spec fn bodies_have_headers(m: Map<Seq<u8>, Seq<u8>>) -> bool {
    forall|h: crate::types::Hash|
        #[trigger] m.contains_key(block_key(h)) ==> {
            &&& header_in(m, h) is Some
            &&& blake2b_256(m[header_key(h)]) == h.0@
            &&& m[header_key(h)].len() <= m[block_key(h)].len()
            &&& m[block_key(h)].subrange(0, m[header_key(h)].len() as int) == m[header_key(h)]
        }
}

proof fn lemma_keys_differ(h: crate::types::Hash, g: crate::types::Hash)
    ensures
        block_key(h) != header_key(g),
        bitmap_key(h) != header_key(g),
        sums_key(h) != header_key(g),
        bitmap_key(h) != block_key(g),
        sums_key(h) != block_key(g),
        block_key(h) == block_key(g) ==> h == g,
        header_key(h) == header_key(g) ==> h == g,
{
    assert(block_key(h)[0] != header_key(g)[0]);
    assert(bitmap_key(h)[0] != header_key(g)[0]);
    assert(sums_key(h)[0] != header_key(g)[0]);
    assert(bitmap_key(h)[0] != block_key(g)[0]);
    assert(sums_key(h)[0] != block_key(g)[0]);
    if block_key(h) == block_key(g) {
        assert(h.0@ =~= block_key(h).subrange(1, 33));
        assert(g.0@ =~= block_key(g).subrange(1, 33));
        assert(h.0 =~= g.0);
    }
    if header_key(h) == header_key(g) {
        assert(h.0@ =~= header_key(h).subrange(1, 33));
        assert(g.0@ =~= header_key(g).subrange(1, 33));
        assert(h.0 =~= g.0);
    }
}

/// Saving a block whose header is already stored under the block's address
/// keeps every body with its header.
pub proof fn lemma_save_block_keeps_headers(
    m: Map<Seq<u8>, Seq<u8>>,
    b: Block,
    h: crate::types::Hash,
    v: Seq<u8>,
)
    requires
        bodies_have_headers(m),
        h.0@ == header_hash(b.header),
        header_fits(b.header),
        m.contains_key(header_key(h)),
        m[header_key(h)] == ser_header(b.header),
    ensures
        bodies_have_headers(m.insert(bitmap_key(h), v).insert(block_key(h), ser_block(b))),
{
    let m2 = m.insert(bitmap_key(h), v).insert(block_key(h), ser_block(b));
    assert forall|g: crate::types::Hash| #[trigger] m2.contains_key(block_key(g)) implies {
        &&& header_in(m2, g) is Some
        &&& blake2b_256(m2[header_key(g)]) == g.0@
        &&& m2[header_key(g)].len() <= m2[block_key(g)].len()
        &&& m2[block_key(g)].subrange(0, m2[header_key(g)].len() as int) == m2[header_key(g)]
    } by {
        lemma_keys_differ(h, g);
        lemma_keys_differ(g, h);
        assert(m2[header_key(g)] == m[header_key(g)]);
        assert(m2.contains_key(header_key(g)) == m.contains_key(header_key(g)));
        if g != h {
            assert(m.contains_key(block_key(g)));
            assert(m2[block_key(g)] == m[block_key(g)]);
        } else {
            assert(header_fits(b.header) && ser_header(b.header) == m2[header_key(g)]);
            let sh = ser_header(b.header);
            let rest = ser_block(b);
            assert(rest.subrange(0, sh.len() as int) =~= sh);
        }
    }
}

/// Saving a header under its own address keeps every body with its header,
/// where no body is stored there yet or the same header is stored again.
pub proof fn lemma_save_header_keeps_headers(m: Map<Seq<u8>, Seq<u8>>, x: BlockHeader, h: crate::types::Hash)
    requires
        bodies_have_headers(m),
        h.0@ == header_hash(x),
        header_fits(x),
        m.contains_key(block_key(h)) ==> m.contains_key(header_key(h)) && m[header_key(h)]
            == ser_header(x),
    ensures
        bodies_have_headers(m.insert(header_key(h), ser_header(x))),
{
    let m2 = m.insert(header_key(h), ser_header(x));
    assert forall|g: crate::types::Hash| #[trigger] m2.contains_key(block_key(g)) implies {
        &&& header_in(m2, g) is Some
        &&& blake2b_256(m2[header_key(g)]) == g.0@
        &&& m2[header_key(g)].len() <= m2[block_key(g)].len()
        &&& m2[block_key(g)].subrange(0, m2[header_key(g)].len() as int) == m2[header_key(g)]
    } by {
        lemma_keys_differ(g, h);
        assert(m.contains_key(block_key(g)));
        assert(m2[block_key(g)] == m[block_key(g)]);
        if header_key(g) == header_key(h) {
            assert(g == h);
            assert(m2[header_key(g)] == m[header_key(g)]);
        } else {
            assert(m2[header_key(g)] == m[header_key(g)]);
        }
    }
}

/// Where every body has its header, a block that reads back has a header
/// that reads back: the block's own header, whose digest is the block's
/// address.
pub proof fn lemma_body_has_header(
    m: Map<Seq<u8>, Seq<u8>>,
    h: crate::types::Hash,
    rb: Result<Block, Error>,
    rh: Result<BlockHeader, Error>,
)
    requires
        bodies_have_headers(m),
        read_result(m, block_key(h), Lookup::Block(h), rb, block_codec(), block_valid()),
        rb is Ok ==> header_fits(rb->Ok_0.header),
        read_result(m, header_key(h), Lookup::BlockHeader(h), rh, header_codec(), header_valid()),
        rh is Ok ==> header_fits(rh->Ok_0),
        rb is Ok,
    ensures
        rh is Ok,
        header_hash(rh->Ok_0) == h.0@,
        same_header(rh->Ok_0, rb->Ok_0.header),
{
    assert(m.contains_key(block_key(h)));
    let x = choose|x: BlockHeader| header_fits(x) && ser_header(x) == m[header_key(h)];
    if rh is Err {
        assert(header_valid()(x));
    }
    let y = rh->Ok_0;
    let b = rb->Ok_0;
    assert(ser_header(y) == m[header_key(h)]);
    assert(ser_block(b) == m[block_key(h)]);
    lemma_header_is_prefix(m[block_key(h)], b, y);
}

/// A header encoding at the start of a block's encoding is that block's
/// header.
proof fn lemma_header_is_prefix(s: Seq<u8>, b: Block, y: BlockHeader)
    requires
        s == ser_block(b),
        header_fits(b.header),
        header_fits(y),
        ser_header(y).len() <= s.len(),
        s.subrange(0, ser_header(y).len() as int) == ser_header(y),
    ensures
        same_header(y, b.header),
{
    let sh = ser_header(b.header);
    assert(s.subrange(0, sh.len() as int) =~= sh);
    lemma_header_end(s, 0, b.header);
    lemma_header_end(s, 0, y);
    assert(ser_header(y) =~= sh);
    lemma_header_equal(y, b.header);
}

/// After `delete_block(h)` the body is gone, the header stays, no bitmap is
/// cached, and reading the block reports it missing.
pub proof fn lemma_delete_block(m: Map<Seq<u8>, Seq<u8>>, h: crate::types::Hash, r: Result<Block, Error>)
    requires
        read_result(
            m.remove(block_key(h)).remove(sums_key(h)).remove(bitmap_key(h)),
            block_key(h),
            Lookup::Block(h),
            r,
            block_codec(),
            block_valid(),
        ),
    ensures
        !m.remove(block_key(h)).remove(sums_key(h)).remove(bitmap_key(h)).contains_key(block_key(h)),
        header_in(m.remove(block_key(h)).remove(sums_key(h)).remove(bitmap_key(h)), h) == header_in(m, h),
        bitmap_cached(m.remove(block_key(h)).remove(sums_key(h)).remove(bitmap_key(h)), h) is None,
        r == Err::<Block, Error>(Error::NotFound(Lookup::Block(h))),
{
    let m2 = m.remove(block_key(h)).remove(sums_key(h)).remove(bitmap_key(h));
    lemma_keys_differ(h, h);
    assert(m2.contains_key(header_key(h)) == m.contains_key(header_key(h)));
    assert(m2[header_key(h)] == m[header_key(h)]);
}

/// Right after `save_block(b)`, the bitmap cached for the block holds
/// exactly the positions, cut to 32 bits, that the index held for the
/// block's inputs; inputs whose position was not indexed add nothing.
pub proof fn lemma_saved_bitmap(m: Map<Seq<u8>, Seq<u8>>, m2: Map<Seq<u8>, Seq<u8>>, b: Block, h: crate::types::Hash)
    requires
        bitmap_cached(m2, h) == Some(input_positions(m, b.inputs@)),
    ensures
        forall|p: u32|
            #[trigger] bitmap_cached(m2, h)->Some_0.contains(p) <==> exists|i: int, x: u64|
                0 <= i < b.inputs@.len() && crate::store::pos_in(m, b.inputs@[i].commit) == Some(x)
                    && x as u32 == p,
{
    assert forall|p: u32| #[trigger] bitmap_cached(m2, h)->Some_0.contains(p) <==> exists|i: int, x: u64|
        0 <= i < b.inputs@.len() && crate::store::pos_in(m, b.inputs@[i].commit) == Some(x) && x as u32
            == p by {
        if bitmap_cached(m2, h)->Some_0.contains(p) {
            let i = choose|i: int|
                0 <= i < b.inputs@.len() && #[trigger] crate::store::pos_in(m, b.inputs@[i].commit) is Some
                    && crate::store::pos_in(m, b.inputs@[i].commit)->Some_0 as u32 == p;
            let x = crate::store::pos_in(m, b.inputs@[i].commit)->Some_0;
            assert(0 <= i < b.inputs@.len() && crate::store::pos_in(m, b.inputs@[i].commit) == Some(x));
        }
        if exists|i: int, x: u64| 0 <= i < b.inputs@.len() && crate::store::pos_in(m, b.inputs@[i].commit)
            == Some(x) && x as u32 == p {
            let (i, x) = choose|i: int, x: u64|
                0 <= i < b.inputs@.len() && crate::store::pos_in(m, b.inputs@[i].commit) == Some(x) && x as u32 == p;
            assert(crate::store::pos_in(m, b.inputs@[i].commit) is Some);
            assert(input_positions(m, b.inputs@).contains(p));
        }
    }
}

// ---------------------------------------------------------------- difficulty

/// On a pair of consecutive headers where the child's total difficulty is
/// at least the parent's on every algorithm and higher on its own, the
/// sample of the child is exactly the difference, and positive on its own
/// algorithm.
pub proof fn lemma_monotone_sample(a: BlockHeader, b: BlockHeader)
    requires
        b.total_difficulty.dominates(a.total_difficulty),
        b.total_difficulty.spec_to_num(b.pow.proof.spec_pow_type()) > a.total_difficulty.spec_to_num(
            b.pow.proof.spec_pow_type(),
        ),
    ensures
        sample(b, Some(a)).difficulty.cuckatoo == b.total_difficulty.cuckatoo - a.total_difficulty.cuckatoo,
        sample(b, Some(a)).difficulty.progpow == b.total_difficulty.progpow - a.total_difficulty.progpow,
        sample(b, Some(a)).difficulty.randomx == b.total_difficulty.randomx - a.total_difficulty.randomx,
        sample(b, Some(a)).difficulty.spec_to_num(b.pow.proof.spec_pow_type()) > 0,
{
}

/// The first sample of the unfiltered walk from `h`, where `h` has a
/// parent whose total difficulty it extends monotonically, is exactly the
/// difference, and positive on `h`'s own algorithm.
pub proof fn lemma_all_samples_monotone(m: Map<Seq<u8>, Seq<u8>>, h: BlockHeader)
    requires
        parent(m, h) is Some,
        h.total_difficulty.dominates(parent(m, h)->Some_0.total_difficulty),
        h.total_difficulty.spec_to_num(h.pow.proof.spec_pow_type()) > parent(m, h)->Some_0.total_difficulty.spec_to_num(
            h.pow.proof.spec_pow_type(),
        ),
    ensures
        all_samples(m, h).len() > 0,
        all_samples(m, h)[0] == sample(h, parent(m, h)),
        all_samples(m, h)[0].difficulty.cuckatoo == h.total_difficulty.cuckatoo - parent(m, h)->Some_0.total_difficulty.cuckatoo,
        all_samples(m, h)[0].difficulty.progpow == h.total_difficulty.progpow - parent(m, h)->Some_0.total_difficulty.progpow,
        all_samples(m, h)[0].difficulty.randomx == h.total_difficulty.randomx - parent(m, h)->Some_0.total_difficulty.randomx,
        all_samples(m, h)[0].difficulty.spec_to_num(h.pow.proof.spec_pow_type()) > 0,
{
    lemma_monotone_sample(parent(m, h)->Some_0, h);
}

/// Every header of a filtered walk after the first has the first one's
/// algorithm, and each sample measures its header against the immediate
/// parent.
pub proof fn lemma_typed_walk_filter(m: Map<Seq<u8>, Seq<u8>>, h: BlockHeader)
    ensures
        typed_walk(m, h)[0] == h,
        forall|i: int|
            0 < i < typed_walk(m, h).len() ==> (#[trigger] typed_walk(m, h)[i]).pow.proof.spec_pow_type()
                == h.pow.proof.spec_pow_type(),
        typed_samples(m, h).len() == typed_walk(m, h).len(),
        forall|i: int|
            0 <= i < typed_walk(m, h).len() ==> #[trigger] typed_samples(m, h)[i] == sample(
                typed_walk(m, h)[i],
                parent(m, typed_walk(m, h)[i]),
            ),
{
    let t = h.pow.proof.spec_pow_type();
    lemma_scan_type(m, t, h);
    let w = typed_walk(m, h);
    assert forall|i: int| 0 < i < w.len() implies (#[trigger] w[i]).pow.proof.spec_pow_type() == t by {
        assert(w[i] == typed_scan(m, t, h)[i - 1]);
    }
    assert forall|i: int| 0 <= i < w.len() implies #[trigger] typed_samples(m, h)[i] == sample(
        w[i],
        parent(m, w[i]),
    ) by {
        assert(difficulty_of(m)(w[i]) == sample(w[i], parent(m, w[i])));
    }
}

proof fn lemma_scan_type(m: Map<Seq<u8>, Seq<u8>>, t: PoWType, cur: BlockHeader)
    ensures
        forall|i: int|
            0 <= i < typed_scan(m, t, cur).len() ==> (#[trigger] typed_scan(m, t, cur)[i]).pow.proof.spec_pow_type() == t,
    decreases cur.height,
{
    match header_in(m, cur.prev_hash) {
        Some(p) => if p.height < cur.height {
            lemma_scan_type(m, p.pow.proof.spec_pow_type(), p);
            if p.pow.proof.spec_pow_type() != t {
                lemma_scan_type(m, t, p);
            } else {
                let w = typed_walk(m, p);
                assert forall|i: int| 0 <= i < w.len() implies (#[trigger] w[i]).pow.proof.spec_pow_type() == t by {
                    if i > 0 {
                        assert(w[i] == typed_scan(m, t, p)[i - 1]);
                    }
                }
            }
        },
        None => {},
    }
}

// ---------------------------------------------------------------- termination

/// A filtered walk yields at most one sample per height down to genesis.
pub proof fn lemma_typed_walk_len(m: Map<Seq<u8>, Seq<u8>>, h: BlockHeader)
    ensures
        typed_walk(m, h).len() <= h.height + 1,
        typed_samples(m, h).len() <= h.height + 1,
{
    lemma_typed_scan_len(m, h.pow.proof.spec_pow_type(), h);
}

proof fn lemma_typed_scan_len(m: Map<Seq<u8>, Seq<u8>>, t: PoWType, cur: BlockHeader)
    ensures
        typed_scan(m, t, cur).len() <= cur.height,
    decreases cur.height,
{
    match header_in(m, cur.prev_hash) {
        Some(p) => if p.height < cur.height {
            lemma_typed_scan_len(m, t, p);
            if p.pow.proof.spec_pow_type() == t {
                assert(typed_scan(m, t, cur) == typed_walk(m, p));
                assert(typed_walk(m, p).len() == 1 + typed_scan(m, t, p).len());
            } else {
                assert(typed_scan(m, t, cur) == typed_scan(m, t, p));
            }
        },
        None => {},
    }
}

/// The unfiltered walk yields at most one sample per height down to genesis.
pub proof fn lemma_all_samples_len(m: Map<Seq<u8>, Seq<u8>>, h: BlockHeader)
    ensures
        all_samples(m, h).len() <= h.height + 1,
    decreases h.height,
{
    match header_in(m, h.prev_hash) {
        Some(p) => if p.height < h.height {
            lemma_all_samples_len(m, p);
        },
        None => {},
    }
}

/// A bottle walk yields at most one vector per height down to genesis.
pub proof fn lemma_bottles_len(m: Map<Seq<u8>, Seq<u8>>, pol: u8, h: BlockHeader)
    ensures
        bottles_from(m, pol, h).len() <= h.height + 1,
    decreases h.height, 1int, 0int,
{
    lemma_policy_scan_len(m, pol, h, POLICY_SEARCH_LIMIT as nat);
}

proof fn lemma_policy_scan_len(m: Map<Seq<u8>, Seq<u8>>, pol: u8, cur: BlockHeader, n: nat)
    ensures
        policy_scan(m, pol, cur, n).len() <= cur.height,
        policy_scan(m, pol, cur, n).len() > 0 ==> policy_scan(m, pol, cur, n).len() + 1 <= cur.height + 1,
    decreases cur.height, 0int, n,
{
    if n > 0 {
        match header_in(m, cur.prev_hash) {
            Some(p) => if p.height < cur.height {
                if p.policy == pol {
                    lemma_bottles_len(m, pol, p);
                } else {
                    lemma_policy_scan_len(m, pol, p, (n - 1) as nat);
                }
            },
            None => {},
        }
    }
}

/// None of the next `n` ancestors of `cur` has policy `pol`.
pub open spec fn policy_free(m: Map<Seq<u8>, Seq<u8>>, pol: u8, cur: BlockHeader, n: nat) -> bool
    decreases cur.height, n,
{
    n == 0 || match header_in(m, cur.prev_hash) {
        Some(p) => if p.height < cur.height {
            p.policy != pol && policy_free(m, pol, p, (n - 1) as nat)
        } else {
            true
        },
        None => true,
    }
}

/// Where none of the next `POLICY_SEARCH_LIMIT` ancestors has the policy, a
/// bottle walk from a header of the policy yields that header's vector and
/// ends, and from a header of another policy yields nothing.
pub proof fn lemma_bottle_window(m: Map<Seq<u8>, Seq<u8>>, pol: u8, h: BlockHeader)
    requires
        policy_free(m, pol, h, POLICY_SEARCH_LIMIT as nat),
    ensures
        h.policy == pol ==> bottles_from(m, pol, h) == seq![h.bottles],
        h.policy != pol ==> bottles_from(m, pol, h).len() == 0,
{
    lemma_policy_free_scan(m, pol, h, POLICY_SEARCH_LIMIT as nat);
    assert(seq![h.bottles] + Seq::<crate::types::Policy>::empty() =~= seq![h.bottles]);
}

proof fn lemma_policy_free_scan(m: Map<Seq<u8>, Seq<u8>>, pol: u8, cur: BlockHeader, n: nat)
    requires
        policy_free(m, pol, cur, n),
    ensures
        policy_scan(m, pol, cur, n).len() == 0,
    decreases cur.height, n,
{
    if n > 0 {
        match header_in(m, cur.prev_hash) {
            Some(p) => if p.height < cur.height {
                lemma_policy_free_scan(m, pol, p, (n - 1) as nat);
            },
            None => {},
        }
    }
}

} // verus!
