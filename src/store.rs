//! The chain store: typed records under one-byte prefixes in a key-value
//! store, read directly or through a batch whose writes become visible to
//! the store when it is committed.
use vstd::prelude::*;
use crate::bitmap::{bitmap_contents, bitmap_from_bytes, bitmap_to_bytes, roaring_decode};
use crate::hash::header_hash;
use crate::kv::{apply_writes, has_tag, lemma_apply_writes_append, Store, Write};
use crate::records::{
    block_fits, block_from_bytes, block_to_bytes, header_fits, header_from_bytes, header_to_bytes,
    pos_from_bytes, pos_to_bytes, ser_block, ser_header, ser_sums, ser_tip, sums_fits,
    sums_from_bytes, sums_to_bytes, tip_fits, tip_from_bytes, tip_to_bytes, u64_fits,
};
use crate::ser::{at, lemma_u64_end, ser_u64};
use crate::types::{Block, BlockHeader, BlockSums, Commitment, Input, Tip};

verus! {

pub const BLOCK_HEADER_PREFIX: u8 = 104;  // 'h'

pub const BLOCK_PREFIX: u8 = 98;  // 'b'

pub const HEAD_PREFIX: u8 = 72;  // 'H'

pub const TAIL_PREFIX: u8 = 84;  // 'T'

pub const HEADER_HEAD_PREFIX: u8 = 73;  // 'I'

pub const SYNC_HEAD_PREFIX: u8 = 115;  // 's'

pub const COMMIT_POS_PREFIX: u8 = 99;  // 'c'

pub const BLOCK_INPUT_BITMAP_PREFIX: u8 = 66;  // 'B'

pub const BLOCK_SUMS_PREFIX: u8 = 77;  // 'M'

/// What a read looked for.
#[derive(Clone, Copy, Debug, PartialEq, Eq)]
pub enum Lookup {
    Head,
    Tail,
    HeaderHead,
    SyncHead,
    Block(crate::types::Hash),
    BlockHeader(crate::types::Hash),
    BlockSums(crate::types::Hash),
    OutputPos(Commitment),
}

#[derive(Clone, Copy, Debug, PartialEq, Eq)]
pub enum Error {
    /// No record under the key.
    NotFound(Lookup),
    /// A record is there, but it is not the encoding of a value of its kind.
    SerDe(Lookup),
}

// ---------------------------------------------------------------- keys

/// A prefix byte followed by the payload.
pub open spec fn key(prefix: u8, payload: Seq<u8>) -> Seq<u8> {
    seq![prefix] + payload
}

pub open spec fn pointer_key(prefix: u8) -> Seq<u8> {
    seq![prefix]
}

pub open spec fn header_key(h: crate::types::Hash) -> Seq<u8> {
    key(BLOCK_HEADER_PREFIX, h.0@)
}

pub open spec fn block_key(h: crate::types::Hash) -> Seq<u8> {
    key(BLOCK_PREFIX, h.0@)
}

pub open spec fn sums_key(h: crate::types::Hash) -> Seq<u8> {
    key(BLOCK_SUMS_PREFIX, h.0@)
}

pub open spec fn bitmap_key(h: crate::types::Hash) -> Seq<u8> {
    key(BLOCK_INPUT_BITMAP_PREFIX, h.0@)
}

pub open spec fn pos_key(c: Commitment) -> Seq<u8> {
    key(COMMIT_POS_PREFIX, c.0@)
}

/// The key of `payload` under `prefix`.
pub fn to_key(prefix: u8, payload: &[u8]) -> (r: Vec<u8>)
    ensures
        r@ == key(prefix, payload@),
{
    let mut r: Vec<u8> = Vec::new();
    r.push(prefix);
    let mut i: usize = 0;
    while i < payload.len()
        invariant
            i <= payload@.len(),
            r@ == seq![prefix] + payload@.subrange(0, i as int),
        decreases payload@.len() - i,
    {
        r.push(payload[i]);
        i = i + 1;
        assert(r@ =~= seq![prefix] + payload@.subrange(0, i as int));
    }
    assert(payload@.subrange(0, payload@.len() as int) =~= payload@);
    r
}

fn pointer_key_vec(prefix: u8) -> (r: Vec<u8>)
    ensures
        r@ == pointer_key(prefix),
{
    let mut r: Vec<u8> = Vec::new();
    r.push(prefix);
    assert(r@ =~= pointer_key(prefix));
    r
}

// ---------------------------------------------------------------- read results

/// What a read of key `k` in `m` owes: the value whose encoding is stored
/// there; `NotFound` where nothing is stored; `SerDe` where what is stored
/// encodes no value.
pub open spec fn read_result<T>(
    m: Map<Seq<u8>, Seq<u8>>,
    k: Seq<u8>,
    what: Lookup,
    r: Result<T, Error>,
    ser: spec_fn(T) -> Seq<u8>,
    fits: spec_fn(T) -> bool,
) -> bool {
    match r {
        Ok(x) => m.contains_key(k) && ser(x) == m[k],
        Err(e) => if m.contains_key(k) {
            e == Error::SerDe(what) && forall|x: T| #[trigger] fits(x) ==> ser(x) != m[k]
        } else {
            e == Error::NotFound(what)
        },
    }
}

pub open spec fn tip_codec() -> spec_fn(Tip) -> Seq<u8> {
    |t: Tip| ser_tip(t)
}

pub open spec fn tip_valid() -> spec_fn(Tip) -> bool {
    |t: Tip| tip_fits(t)
}

pub open spec fn header_codec() -> spec_fn(BlockHeader) -> Seq<u8> {
    |h: BlockHeader| ser_header(h)
}

pub open spec fn header_valid() -> spec_fn(BlockHeader) -> bool {
    |h: BlockHeader| header_fits(h)
}

pub open spec fn block_codec() -> spec_fn(Block) -> Seq<u8> {
    |b: Block| ser_block(b)
}

pub open spec fn block_valid() -> spec_fn(Block) -> bool {
    |b: Block| block_fits(b)
}

pub open spec fn sums_codec() -> spec_fn(BlockSums) -> Seq<u8> {
    |x: BlockSums| ser_sums(x)
}

pub open spec fn sums_valid() -> spec_fn(BlockSums) -> bool {
    |x: BlockSums| sums_fits(x)
}

pub open spec fn pos_codec() -> spec_fn(u64) -> Seq<u8> {
    |x: u64| ser_u64(x)
}

pub open spec fn pos_valid() -> spec_fn(u64) -> bool {
    |x: u64| u64_fits(x)
}

/// The header stored under `h`, if a header is stored there.
pub open spec fn header_in(m: Map<Seq<u8>, Seq<u8>>, h: crate::types::Hash) -> Option<BlockHeader> {
    let k = header_key(h);
    if m.contains_key(k) && exists|x: BlockHeader| header_fits(x) && ser_header(x) == m[k] {
        Some(choose|x: BlockHeader| header_fits(x) && ser_header(x) == m[k])
    } else {
        None
    }
}

/// The tip stored under `k`, if one is stored there.
pub open spec fn tip_in(m: Map<Seq<u8>, Seq<u8>>, k: Seq<u8>) -> Option<Tip> {
    if m.contains_key(k) && exists|t: Tip| ser_tip(t) == m[k] {
        Some(choose|t: Tip| ser_tip(t) == m[k])
    } else {
        None
    }
}

/// The output position stored for `c`, if one is stored.
pub open spec fn pos_in(m: Map<Seq<u8>, Seq<u8>>, c: Commitment) -> Option<u64> {
    let k = pos_key(c);
    if m.contains_key(k) && exists|x: u64| ser_u64(x) == m[k] {
        Some(choose|x: u64| ser_u64(x) == m[k])
    } else {
        None
    }
}

/// The positions, cut to 32 bits, of the spent outputs whose position is
/// indexed in `m`.
pub open spec fn input_positions(m: Map<Seq<u8>, Seq<u8>>, inputs: Seq<Input>) -> Set<u32> {
    Set::new(
        |p: u32|
            exists|i: int|
                0 <= i < inputs.len() && #[trigger] pos_in(m, inputs[i].commit) is Some && pos_in(
                    m,
                    inputs[i].commit,
                )->Some_0 as u32 == p,
    )
}

/// The bitmap cached for `h`, if a readable one is stored.
pub open spec fn bitmap_cached(m: Map<Seq<u8>, Seq<u8>>, h: crate::types::Hash) -> Option<Set<u32>> {
    if m.contains_key(bitmap_key(h)) {
        roaring_decode(m[bitmap_key(h)])
    } else {
        None
    }
}

/// A record that decodes as an output position.
pub open spec fn is_pos_record(v: Seq<u8>) -> bool {
    exists|x: u64| ser_u64(x) == v
}

/// `m` without the output positions it indexes.
pub open spec fn without_positions(m: Map<Seq<u8>, Seq<u8>>) -> Map<Seq<u8>, Seq<u8>> {
    m.restrict(m.dom().filter(|k: Seq<u8>| !(has_tag(k, COMMIT_POS_PREFIX) && is_pos_record(m[k]))))
}

// ---------------------------------------------------------------- lemmas on records

pub proof fn lemma_tip_injective(a: Tip, b: Tip)
    requires
        ser_tip(a) == ser_tip(b),
    ensures
        a == b,
{
    let s = ser_tip(a);
    let x = a.last_block_h.0@;
    let y = a.prev_block_h.0@;
    assert(s.subrange(0, 32) =~= a.last_block_h.0@);
    assert(s.subrange(0, 32) =~= b.last_block_h.0@);
    assert(s.subrange(32, 64) =~= a.prev_block_h.0@);
    assert(s.subrange(32, 64) =~= b.prev_block_h.0@);
    assert(a.last_block_h.0 =~= b.last_block_h.0);
    assert(a.prev_block_h.0 =~= b.prev_block_h.0);
    assert(at(s, 64, ser_u64(a.height))) by {
        assert(s.subrange(64, 72) =~= ser_u64(a.height));
    }
    assert(at(s, 64, ser_u64(b.height))) by {
        assert(s.subrange(64, 72) =~= ser_u64(b.height));
    }
    lemma_u64_end(s, 64, a.height);
    lemma_u64_end(s, 64, b.height);
    let (da, db) = (a.total_difficulty, b.total_difficulty);
    assert(at(s, 72, ser_u64(da.cuckatoo)) && at(s, 72, ser_u64(db.cuckatoo))) by {
        assert(s.subrange(72, 80) =~= ser_u64(da.cuckatoo));
        assert(s.subrange(72, 80) =~= ser_u64(db.cuckatoo));
    }
    assert(at(s, 80, ser_u64(da.progpow)) && at(s, 80, ser_u64(db.progpow))) by {
        assert(s.subrange(80, 88) =~= ser_u64(da.progpow));
        assert(s.subrange(80, 88) =~= ser_u64(db.progpow));
    }
    assert(at(s, 88, ser_u64(da.randomx)) && at(s, 88, ser_u64(db.randomx))) by {
        assert(s.subrange(88, 96) =~= ser_u64(da.randomx));
        assert(s.subrange(88, 96) =~= ser_u64(db.randomx));
    }
    lemma_u64_end(s, 72, da.cuckatoo);
    lemma_u64_end(s, 72, db.cuckatoo);
    lemma_u64_end(s, 80, da.progpow);
    lemma_u64_end(s, 80, db.progpow);
    lemma_u64_end(s, 88, da.randomx);
    lemma_u64_end(s, 88, db.randomx);
}

pub proof fn lemma_pos_injective(a: u64, b: u64)
    requires
        ser_u64(a) == ser_u64(b),
    ensures
        a == b,
{
    let s = ser_u64(a);
    assert(s.subrange(0, 8) =~= s);
    lemma_u64_end(s, 0, a);
    lemma_u64_end(s, 0, b);
}

/// A read of a tip gives what `tip_in` names.
pub proof fn lemma_tip_read(m: Map<Seq<u8>, Seq<u8>>, k: Seq<u8>, what: Lookup, r: Result<Tip, Error>)
    requires
        read_result(m, k, what, r, tip_codec(), tip_valid()),
    ensures
        match r {
            Ok(t) => tip_in(m, k) == Some(t),
            Err(_) => tip_in(m, k) is None,
        },
{
    match r {
        Ok(t) => {
            assert(ser_tip(t) == m[k]);
            let c = choose|c: Tip| ser_tip(c) == m[k];
            lemma_tip_injective(c, t);
        },
        Err(_) => {
            if m.contains_key(k) {
                assert forall|t: Tip| ser_tip(t) != m[k] by {
                    assert(tip_valid()(t));
                }
            }
        },
    }
}

/// A read of a position gives what `pos_in` names.
pub proof fn lemma_pos_read(m: Map<Seq<u8>, Seq<u8>>, c: Commitment, r: Result<u64, Error>)
    requires
        read_result(m, pos_key(c), Lookup::OutputPos(c), r, pos_codec(), pos_valid()),
    ensures
        match r {
            Ok(x) => pos_in(m, c) == Some(x),
            Err(_) => pos_in(m, c) is None,
        },
{
    let k = pos_key(c);
    match r {
        Ok(x) => {
            assert(ser_u64(x) == m[k]);
            let y = choose|y: u64| ser_u64(y) == m[k];
            lemma_pos_injective(x, y);
        },
        Err(_) => {
            if m.contains_key(k) {
                assert forall|x: u64| ser_u64(x) != m[k] by {
                    assert(pos_valid()(x));
                }
            }
        },
    }
}

/// A read of a header gives a header that agrees with `header_in` on every
/// field that the walks over the chain read.
pub proof fn lemma_header_read(
    m: Map<Seq<u8>, Seq<u8>>,
    h: crate::types::Hash,
    r: Result<BlockHeader, Error>,
)
    requires
        read_result(m, header_key(h), Lookup::BlockHeader(h), r, header_codec(), header_valid()),
        r is Ok ==> header_fits(r->Ok_0),
    ensures
        match r {
            Ok(x) => header_in(m, h) is Some && same_fields(x, header_in(m, h)->Some_0),
            Err(_) => header_in(m, h) is None,
        },
{
    let k = header_key(h);
    match r {
        Ok(x) => {
            assert(header_fits(x) && ser_header(x) == m[k]);
            let y = choose|y: BlockHeader| header_fits(y) && ser_header(y) == m[k];
            crate::records::lemma_header_fields(x, y);
        },
        Err(_) => {
            if m.contains_key(k) {
                assert forall|x: BlockHeader| !(header_fits(x) && ser_header(x) == m[k]) by {
                    if header_fits(x) {
                        assert(header_valid()(x));
                    }
                }
            }
        },
    }
}

/// The fields that a walk over the chain reads.
pub open spec fn same_fields(a: BlockHeader, b: BlockHeader) -> bool {
    &&& a.height == b.height
    &&& a.timestamp == b.timestamp
    &&& a.prev_hash == b.prev_hash
    &&& a.total_difficulty == b.total_difficulty
    &&& a.pow.proof.spec_pow_type() == b.pow.proof.spec_pow_type()
    &&& a.pow.proof.spec_is_secondary() == b.pow.proof.spec_is_secondary()
    &&& a.pow.secondary_scaling == b.pow.secondary_scaling
    &&& a.policy == b.policy
    &&& a.bottles == b.bottles
}

// ---------------------------------------------------------------- typed reads

/// Maps a missing record to `NotFound(what)`.
pub fn option_to_not_found<T>(r: Result<Option<T>, Error>, what: Lookup) -> (res: Result<T, Error>)
    ensures
        match r {
            Ok(Some(x)) => res == Ok::<T, Error>(x),
            Ok(None) => res == Err::<T, Error>(Error::NotFound(what)),
            Err(e) => res == Err::<T, Error>(e),
        },
{
    match r {
        Ok(Some(x)) => Ok(x),
        Ok(None) => Err(Error::NotFound(what)),
        Err(e) => Err(e),
    }
}

fn read_tip_at(db: &Store, prefix: u8, what: Lookup) -> (r: Result<Tip, Error>)
    ensures
        read_result(db@, pointer_key(prefix), what, r, tip_codec(), tip_valid()),
{
    let k = pointer_key_vec(prefix);
    match db.get(&k) {
        None => Err(Error::NotFound(what)),
        Some(bytes) => match tip_from_bytes(&bytes) {
            Some(t) => Ok(t),
            None => {
                assert(forall|t: Tip| #[trigger] tip_valid()(t) ==> tip_codec()(t) != db@[k@]);
                Err(Error::SerDe(what))
            },
        },
    }
}

fn read_header_at(db: &Store, h: &crate::types::Hash) -> (r: Result<BlockHeader, Error>)
    ensures
        read_result(
            db@,
            header_key(*h),
            Lookup::BlockHeader(*h),
            r,
            header_codec(),
            header_valid(),
        ),
        r is Ok ==> header_fits(r->Ok_0),
{
    let k = to_key(BLOCK_HEADER_PREFIX, h.0.as_slice());
    match db.get(&k) {
        None => Err(Error::NotFound(Lookup::BlockHeader(*h))),
        Some(bytes) => match header_from_bytes(&bytes) {
            Some(x) => Ok(x),
            None => {
                assert(forall|x: BlockHeader| #[trigger] header_valid()(x) ==> header_codec()(x)
                    != db@[k@]);
                Err(Error::SerDe(Lookup::BlockHeader(*h)))
            },
        },
    }
}

fn read_block_at(db: &Store, h: &crate::types::Hash) -> (r: Result<Block, Error>)
    ensures
        read_result(db@, block_key(*h), Lookup::Block(*h), r, block_codec(), block_valid()),
        r is Ok ==> block_fits(r->Ok_0),
{
    let k = to_key(BLOCK_PREFIX, h.0.as_slice());
    match db.get(&k) {
        None => Err(Error::NotFound(Lookup::Block(*h))),
        Some(bytes) => match block_from_bytes(&bytes) {
            Some(x) => Ok(x),
            None => {
                assert(forall|x: Block| #[trigger] block_valid()(x) ==> block_codec()(x) != db@[k@]);
                Err(Error::SerDe(Lookup::Block(*h)))
            },
        },
    }
}

fn read_sums_at(db: &Store, h: &crate::types::Hash) -> (r: Result<BlockSums, Error>)
    ensures
        read_result(db@, sums_key(*h), Lookup::BlockSums(*h), r, sums_codec(), sums_valid()),
{
    let k = to_key(BLOCK_SUMS_PREFIX, h.0.as_slice());
    match db.get(&k) {
        None => Err(Error::NotFound(Lookup::BlockSums(*h))),
        Some(bytes) => match sums_from_bytes(&bytes) {
            Some(x) => Ok(x),
            None => {
                assert(forall|x: BlockSums| #[trigger] sums_valid()(x) ==> sums_codec()(x)
                    != db@[k@]);
                Err(Error::SerDe(Lookup::BlockSums(*h)))
            },
        },
    }
}

fn read_pos_at(db: &Store, c: &Commitment) -> (r: Result<u64, Error>)
    ensures
        read_result(db@, pos_key(*c), Lookup::OutputPos(*c), r, pos_codec(), pos_valid()),
{
    let k = to_key(COMMIT_POS_PREFIX, c.0.as_slice());
    match db.get(&k) {
        None => Err(Error::NotFound(Lookup::OutputPos(*c))),
        Some(bytes) => match pos_from_bytes(&bytes) {
            Some(x) => Ok(x),
            None => {
                assert(forall|x: u64| #[trigger] pos_valid()(x) ==> pos_codec()(x) != db@[k@]);
                Err(Error::SerDe(Lookup::OutputPos(*c)))
            },
        },
    }
}

/// What reading the header of the head owes.
pub open spec fn head_header_result(m: Map<Seq<u8>, Seq<u8>>, r: Result<BlockHeader, Error>) -> bool {
    match tip_in(m, pointer_key(HEAD_PREFIX)) {
        Some(t) => read_result(
            m,
            header_key(t.last_block_h),
            Lookup::BlockHeader(t.last_block_h),
            r,
            header_codec(),
            header_valid(),
        ),
        None => r is Err && read_result(
            m,
            pointer_key(HEAD_PREFIX),
            Lookup::Head,
            Err::<Tip, Error>(r->Err_0),
            tip_codec(),
            tip_valid(),
        ),
    }
}

fn read_head_header(db: &Store) -> (r: Result<BlockHeader, Error>)
    ensures
        head_header_result(db@, r),
{
    let head = read_tip_at(db, HEAD_PREFIX, Lookup::Head);
    proof {
        lemma_tip_read(db@, pointer_key(HEAD_PREFIX), Lookup::Head, head);
    }
    match head {
        Ok(t) => read_header_at(db, &t.last_block_h),
        Err(e) => Err(e),
    }
}

// ---------------------------------------------------------------- the store

/// All chain-related records.
pub struct ChainStore {
    db: Store,
}

impl View for ChainStore {
    type V = Map<Seq<u8>, Seq<u8>>;

    closed spec fn view(&self) -> Map<Seq<u8>, Seq<u8>> {
        self.db@
    }
}

impl ChainStore {
    /// An empty chain store.
    pub fn new() -> (r: ChainStore)
        ensures
            r@ == Map::<Seq<u8>, Seq<u8>>::empty(),
    {
        ChainStore { db: Store::new() }
    }

    /// The head of the block chain.
    pub fn head(&self) -> (r: Result<Tip, Error>)
        ensures
            read_result(self@, pointer_key(HEAD_PREFIX), Lookup::Head, r, tip_codec(), tip_valid()),
    {
        read_tip_at(&self.db, HEAD_PREFIX, Lookup::Head)
    }

    /// The earliest block kept.
    pub fn tail(&self) -> (r: Result<Tip, Error>)
        ensures
            read_result(self@, pointer_key(TAIL_PREFIX), Lookup::Tail, r, tip_codec(), tip_valid()),
    {
        read_tip_at(&self.db, TAIL_PREFIX, Lookup::Tail)
    }

    /// The header of the head of the block chain.
    pub fn head_header(&self) -> (r: Result<BlockHeader, Error>)
        ensures
            head_header_result(self@, r),
    {
        read_head_header(&self.db)
    }

    /// The head of the header chain.
    pub fn header_head(&self) -> (r: Result<Tip, Error>)
        ensures
            read_result(
                self@,
                pointer_key(HEADER_HEAD_PREFIX),
                Lookup::HeaderHead,
                r,
                tip_codec(),
                tip_valid(),
            ),
    {
        read_tip_at(&self.db, HEADER_HEAD_PREFIX, Lookup::HeaderHead)
    }

    /// The head used by header sync.
    pub fn get_sync_head(&self) -> (r: Result<Tip, Error>)
        ensures
            read_result(
                self@,
                pointer_key(SYNC_HEAD_PREFIX),
                Lookup::SyncHead,
                r,
                tip_codec(),
                tip_valid(),
            ),
    {
        read_tip_at(&self.db, SYNC_HEAD_PREFIX, Lookup::SyncHead)
    }

    pub fn get_block(&self, h: &crate::types::Hash) -> (r: Result<Block, Error>)
        ensures
            read_result(self@, block_key(*h), Lookup::Block(*h), r, block_codec(), block_valid()),
            r is Ok ==> block_fits(r->Ok_0),
    {
        read_block_at(&self.db, h)
    }

    /// Whether the full block is stored.
    pub fn block_exists(&self, h: &crate::types::Hash) -> (r: Result<bool, Error>)
        ensures
            r == Ok::<bool, Error>(self@.contains_key(block_key(*h))),
    {
        let k = to_key(BLOCK_PREFIX, h.0.as_slice());
        Ok(self.db.contains(&k))
    }

    pub fn get_block_sums(&self, h: &crate::types::Hash) -> (r: Result<BlockSums, Error>)
        ensures
            read_result(self@, sums_key(*h), Lookup::BlockSums(*h), r, sums_codec(), sums_valid()),
    {
        read_sums_at(&self.db, h)
    }

    pub fn get_previous_header(&self, header: &BlockHeader) -> (r: Result<BlockHeader, Error>)
        ensures
            read_result(
                self@,
                header_key(header.prev_hash),
                Lookup::BlockHeader(header.prev_hash),
                r,
                header_codec(),
                header_valid(),
            ),
            r is Ok ==> header_fits(r->Ok_0),
    {
        read_header_at(&self.db, &header.prev_hash)
    }

    pub fn get_block_header(&self, h: &crate::types::Hash) -> (r: Result<BlockHeader, Error>)
        ensures
            read_result(
                self@,
                header_key(*h),
                Lookup::BlockHeader(*h),
                r,
                header_codec(),
                header_valid(),
            ),
            r is Ok ==> header_fits(r->Ok_0),
    {
        read_header_at(&self.db, h)
    }

    /// The MMR position of the output with commitment `c`.
    pub fn get_output_pos(&self, c: &Commitment) -> (r: Result<u64, Error>)
        ensures
            read_result(self@, pos_key(*c), Lookup::OutputPos(*c), r, pos_codec(), pos_valid()),
    {
        read_pos_at(&self.db, c)
    }

    /// A batch that starts from what the store holds now.
    pub fn batch(&self) -> (r: Batch)
        ensures
            r.wf(),
            r@ == self@,
            r.base() == self@,
            r.pending() == Seq::<Write>::empty(),
    {
        let b = Batch { work: self.db.copy(), start: self.db.log_len() };
        proof {
            b.lemma_view();
            assert(b.work.writes().subrange(0, b.start as int) =~= b.work.writes());
            assert(b.pending() =~= Seq::<Write>::empty());
        }
        b
    }
}

// ---------------------------------------------------------------- batches

/// A set of writes that reads see at once and that the store sees when the
/// batch is committed; dropping the batch discards them.
pub struct Batch {
    work: Store,
    start: usize,
}

impl View for Batch {
    type V = Map<Seq<u8>, Seq<u8>>;

    /// What reads through the batch see: the base with the pending writes.
    closed spec fn view(&self) -> Map<Seq<u8>, Seq<u8>> {
        self.work@
    }
}

impl Batch {
    pub closed spec fn wf(&self) -> bool {
        self.start <= self.work.writes().len()
    }

    /// What the batch started from.
    pub closed spec fn base(&self) -> Map<Seq<u8>, Seq<u8>> {
        apply_writes(Map::empty(), self.work.writes().subrange(0, self.start as int))
    }

    /// The writes made through the batch, in order.
    pub closed spec fn pending(&self) -> Seq<Write> {
        self.work.writes().skip(self.start as int)
    }

    pub proof fn lemma_view(&self)
        requires
            self.wf(),
        ensures
            self@ == apply_writes(self.base(), self.pending()),
    {
        let ws = self.work.writes();
        assert(ws =~= ws.subrange(0, self.start as int) + ws.skip(self.start as int));
        lemma_apply_writes_append(Map::empty(), ws.subrange(0, self.start as int), ws.skip(self.start as int));
    }

    fn put(&mut self, k: Vec<u8>, v: Vec<u8>)
        requires
            old(self).wf(),
        ensures
            final(self).wf(),
            final(self).base() == old(self).base(),
            final(self)@ == old(self)@.insert(k@, v@),
    {
        let ghost before = self.work.writes();
        self.work.put(k, v);
        assert(self.work.writes().subrange(0, self.start as int) =~= before.subrange(0, self.start as int));
    }

    fn del(&mut self, k: Vec<u8>)
        requires
            old(self).wf(),
        ensures
            final(self).wf(),
            final(self).base() == old(self).base(),
            final(self)@ == old(self)@.remove(k@),
    {
        let ghost before = self.work.writes();
        self.work.delete(k);
        assert(self.work.writes().subrange(0, self.start as int) =~= before.subrange(0, self.start as int));
    }

    pub fn head(&self) -> (r: Result<Tip, Error>)
        ensures
            read_result(self@, pointer_key(HEAD_PREFIX), Lookup::Head, r, tip_codec(), tip_valid()),
    {
        read_tip_at(&self.work, HEAD_PREFIX, Lookup::Head)
    }

    pub fn tail(&self) -> (r: Result<Tip, Error>)
        ensures
            read_result(self@, pointer_key(TAIL_PREFIX), Lookup::Tail, r, tip_codec(), tip_valid()),
    {
        read_tip_at(&self.work, TAIL_PREFIX, Lookup::Tail)
    }

    pub fn head_header(&self) -> (r: Result<BlockHeader, Error>)
        ensures
            head_header_result(self@, r),
    {
        read_head_header(&self.work)
    }

    pub fn header_head(&self) -> (r: Result<Tip, Error>)
        ensures
            read_result(
                self@,
                pointer_key(HEADER_HEAD_PREFIX),
                Lookup::HeaderHead,
                r,
                tip_codec(),
                tip_valid(),
            ),
    {
        read_tip_at(&self.work, HEADER_HEAD_PREFIX, Lookup::HeaderHead)
    }

    pub fn get_sync_head(&self) -> (r: Result<Tip, Error>)
        ensures
            read_result(
                self@,
                pointer_key(SYNC_HEAD_PREFIX),
                Lookup::SyncHead,
                r,
                tip_codec(),
                tip_valid(),
            ),
    {
        read_tip_at(&self.work, SYNC_HEAD_PREFIX, Lookup::SyncHead)
    }

    fn save_tip(&mut self, prefix: u8, t: &Tip)
        requires
            old(self).wf(),
        ensures
            final(self).wf(),
            final(self).base() == old(self).base(),
            final(self)@ == old(self)@.insert(pointer_key(prefix), ser_tip(*t)),
    {
        self.put(pointer_key_vec(prefix), tip_to_bytes(t));
    }

    /// Sets the head of both the block chain and the header chain.
    pub fn save_head(&mut self, t: &Tip) -> (r: Result<(), Error>)
        requires
            old(self).wf(),
        ensures
            r is Ok,
            final(self).wf(),
            final(self).base() == old(self).base(),
            final(self)@ == old(self)@.insert(pointer_key(HEAD_PREFIX), ser_tip(*t)).insert(
                pointer_key(HEADER_HEAD_PREFIX),
                ser_tip(*t),
            ),
    {
        self.save_tip(HEAD_PREFIX, t);
        self.save_tip(HEADER_HEAD_PREFIX, t);
        Ok(())
    }

    /// Sets the head of the block chain only.
    pub fn save_body_head(&mut self, t: &Tip) -> (r: Result<(), Error>)
        requires
            old(self).wf(),
        ensures
            r is Ok,
            final(self).wf(),
            final(self).base() == old(self).base(),
            final(self)@ == old(self)@.insert(pointer_key(HEAD_PREFIX), ser_tip(*t)),
    {
        self.save_tip(HEAD_PREFIX, t);
        Ok(())
    }

    pub fn save_body_tail(&mut self, t: &Tip) -> (r: Result<(), Error>)
        requires
            old(self).wf(),
        ensures
            r is Ok,
            final(self).wf(),
            final(self).base() == old(self).base(),
            final(self)@ == old(self)@.insert(pointer_key(TAIL_PREFIX), ser_tip(*t)),
    {
        self.save_tip(TAIL_PREFIX, t);
        Ok(())
    }

    pub fn save_header_head(&mut self, t: &Tip) -> (r: Result<(), Error>)
        requires
            old(self).wf(),
        ensures
            r is Ok,
            final(self).wf(),
            final(self).base() == old(self).base(),
            final(self)@ == old(self)@.insert(pointer_key(HEADER_HEAD_PREFIX), ser_tip(*t)),
    {
        self.save_tip(HEADER_HEAD_PREFIX, t);
        Ok(())
    }

    pub fn save_sync_head(&mut self, t: &Tip) -> (r: Result<(), Error>)
        requires
            old(self).wf(),
        ensures
            r is Ok,
            final(self).wf(),
            final(self).base() == old(self).base(),
            final(self)@ == old(self)@.insert(pointer_key(SYNC_HEAD_PREFIX), ser_tip(*t)),
    {
        self.save_tip(SYNC_HEAD_PREFIX, t);
        Ok(())
    }

    /// Sets the sync head to the head of the header chain.
    pub fn reset_sync_head(&mut self) -> (r: Result<(), Error>)
        requires
            old(self).wf(),
        ensures
            final(self).wf(),
            final(self).base() == old(self).base(),
            match tip_in(old(self)@, pointer_key(HEADER_HEAD_PREFIX)) {
                Some(t) => r is Ok && final(self)@ == old(self)@.insert(
                    pointer_key(SYNC_HEAD_PREFIX),
                    ser_tip(t),
                ),
                None => r is Err && read_result(
                    old(self)@,
                    pointer_key(HEADER_HEAD_PREFIX),
                    Lookup::HeaderHead,
                    Err::<Tip, Error>(r->Err_0),
                    tip_codec(),
                    tip_valid(),
                ) && final(self)@ == old(self)@,
            },
    {
        let head = self.header_head();
        proof {
            lemma_tip_read(self@, pointer_key(HEADER_HEAD_PREFIX), Lookup::HeaderHead, head);
        }
        match head {
            Ok(t) => self.save_sync_head(&t),
            Err(e) => Err(e),
        }
    }

    /// Sets the head of the header chain to the head of the block chain.
    pub fn reset_header_head(&mut self) -> (r: Result<(), Error>)
        requires
            old(self).wf(),
        ensures
            final(self).wf(),
            final(self).base() == old(self).base(),
            match tip_in(old(self)@, pointer_key(HEAD_PREFIX)) {
                Some(t) => r is Ok && final(self)@ == old(self)@.insert(
                    pointer_key(HEADER_HEAD_PREFIX),
                    ser_tip(t),
                ),
                None => r is Err && read_result(
                    old(self)@,
                    pointer_key(HEAD_PREFIX),
                    Lookup::Head,
                    Err::<Tip, Error>(r->Err_0),
                    tip_codec(),
                    tip_valid(),
                ) && final(self)@ == old(self)@,
            },
    {
        let head = self.head();
        proof {
            lemma_tip_read(self@, pointer_key(HEAD_PREFIX), Lookup::Head, head);
        }
        match head {
            Ok(t) => self.save_header_head(&t),
            Err(e) => Err(e),
        }
    }

    pub fn get_block(&self, h: &crate::types::Hash) -> (r: Result<Block, Error>)
        ensures
            read_result(self@, block_key(*h), Lookup::Block(*h), r, block_codec(), block_valid()),
            r is Ok ==> block_fits(r->Ok_0),
    {
        read_block_at(&self.work, h)
    }

    pub fn block_exists(&self, h: &crate::types::Hash) -> (r: Result<bool, Error>)
        ensures
            r == Ok::<bool, Error>(self@.contains_key(block_key(*h))),
    {
        let k = to_key(BLOCK_PREFIX, h.0.as_slice());
        Ok(self.work.contains(&k))
    }

    pub fn get_block_header(&self, h: &crate::types::Hash) -> (r: Result<BlockHeader, Error>)
        ensures
            read_result(
                self@,
                header_key(*h),
                Lookup::BlockHeader(*h),
                r,
                header_codec(),
                header_valid(),
            ),
            r is Ok ==> header_fits(r->Ok_0),
    {
        read_header_at(&self.work, h)
    }

    pub fn get_previous_header(&self, header: &BlockHeader) -> (r: Result<BlockHeader, Error>)
        ensures
            read_result(
                self@,
                header_key(header.prev_hash),
                Lookup::BlockHeader(header.prev_hash),
                r,
                header_codec(),
                header_valid(),
            ),
            r is Ok ==> header_fits(r->Ok_0),
    {
        read_header_at(&self.work, &header.prev_hash)
    }

    /// Stores the header under its own address.
    pub fn save_block_header(&mut self, header: &BlockHeader) -> (r: Result<(), Error>)
        requires
            old(self).wf(),
        ensures
            r is Ok,
            final(self).wf(),
            final(self).base() == old(self).base(),
            exists|h: crate::types::Hash|
                h.0@ == header_hash(*header) && final(self)@ == old(self)@.insert(
                    #[trigger] header_key(h),
                    ser_header(*header),
                ),
    {
        let hash = header.hash();
        self.put(to_key(BLOCK_HEADER_PREFIX, hash.0.as_slice()), header_to_bytes(header));
        assert(self@ == old(self)@.insert(header_key(hash), ser_header(*header)));
        Ok(())
    }

    pub fn save_output_pos(&mut self, c: &Commitment, pos: u64) -> (r: Result<(), Error>)
        requires
            old(self).wf(),
        ensures
            r is Ok,
            final(self).wf(),
            final(self).base() == old(self).base(),
            final(self)@ == old(self)@.insert(pos_key(*c), ser_u64(pos)),
    {
        self.put(to_key(COMMIT_POS_PREFIX, c.0.as_slice()), pos_to_bytes(&pos));
        Ok(())
    }

    pub fn get_output_pos(&self, c: &Commitment) -> (r: Result<u64, Error>)
        ensures
            read_result(self@, pos_key(*c), Lookup::OutputPos(*c), r, pos_codec(), pos_valid()),
    {
        read_pos_at(&self.work, c)
    }

    /// Deletes every output position of the index; a record under the index's
    /// prefix that is not a position stays.
    pub fn clear_output_pos(&mut self) -> (r: Result<(), Error>)
        requires
            old(self).wf(),
        ensures
            r is Ok,
            final(self).wf(),
            final(self).base() == old(self).base(),
            final(self)@ == without_positions(old(self)@),
    {
        let ghost m0 = self@;
        let keys = self.work.keys_with_tag(COMMIT_POS_PREFIX);
        let mut i: usize = 0;
        while i < keys.len()
            invariant
                self.wf(),
                self.base() == old(self).base(),
                m0 == old(self)@,
                i <= keys@.len(),
                forall|j: int| 0 <= j < keys@.len() ==> m0.contains_key(#[trigger] keys@[j]@)
                    && has_tag(keys@[j]@, COMMIT_POS_PREFIX),
                forall|j: int, j2: int| 0 <= j < j2 < keys@.len() ==> keys@[j]@ != keys@[j2]@,
                forall|k: Seq<u8>| #[trigger] m0.contains_key(k) && has_tag(k, COMMIT_POS_PREFIX)
                    ==> exists|j: int| 0 <= j < keys@.len() && keys@[j]@ == k,
                forall|k: Seq<u8>|
                    #![trigger self@.contains_key(k)]
                    self@.contains_key(k) <==> (m0.contains_key(k) && !(exists|j: int|
                        0 <= j < i && keys@[j]@ == k && is_pos_record(m0[k]))),
                forall|k: Seq<u8>| #[trigger] self@.contains_key(k) ==> self@[k] == m0[k],
            decreases keys@.len() - i,
        {
            let k = &keys[i];
            let v = self.work.get(k);
            let drop = match &v {
                Some(bytes) => pos_from_bytes(bytes).is_some(),
                None => false,
            };
            proof {
                assert(self@.contains_key(k@)) by {
                    assert(m0.contains_key(keys@[i as int]@));
                    assert(forall|j: int| 0 <= j < i ==> keys@[j]@ != keys@[i as int]@);
                }
                if !drop {
                    assert(!is_pos_record(m0[k@])) by {
                        if is_pos_record(m0[k@]) {
                            let x = choose|x: u64| ser_u64(x) == m0[k@];
                            assert(u64_fits(x));
                        }
                    }
                }
            }
            if drop {
                self.del(k.clone());
            }
            i = i + 1;
        }
        proof {
            assert(self@ =~= without_positions(m0));
        }
        Ok(())
    }

    fn save_block_input_bitmap(&mut self, bh: &crate::types::Hash, bm: &croaring::Bitmap)
        requires
            old(self).wf(),
        ensures
            final(self).wf(),
            final(self).base() == old(self).base(),
            final(self)@ == old(self)@.insert(bitmap_key(*bh), final(self)@[bitmap_key(*bh)]),
            roaring_decode(final(self)@[bitmap_key(*bh)]) == Some(bitmap_contents(*bm)),
    {
        self.put(to_key(BLOCK_INPUT_BITMAP_PREFIX, bh.0.as_slice()), bitmap_to_bytes(bm));
    }

    fn delete_block_input_bitmap(&mut self, bh: &crate::types::Hash)
        requires
            old(self).wf(),
        ensures
            final(self).wf(),
            final(self).base() == old(self).base(),
            final(self)@ == old(self)@.remove(bitmap_key(*bh)),
    {
        self.del(to_key(BLOCK_INPUT_BITMAP_PREFIX, bh.0.as_slice()));
    }

    pub fn save_block_sums(&mut self, h: &crate::types::Hash, sums: &BlockSums) -> (r: Result<(), Error>)
        requires
            old(self).wf(),
        ensures
            r is Ok,
            final(self).wf(),
            final(self).base() == old(self).base(),
            final(self)@ == old(self)@.insert(sums_key(*h), ser_sums(*sums)),
    {
        self.put(to_key(BLOCK_SUMS_PREFIX, h.0.as_slice()), sums_to_bytes(sums));
        Ok(())
    }

    pub fn get_block_sums(&self, h: &crate::types::Hash) -> (r: Result<BlockSums, Error>)
        ensures
            read_result(self@, sums_key(*h), Lookup::BlockSums(*h), r, sums_codec(), sums_valid()),
    {
        read_sums_at(&self.work, h)
    }

    fn delete_block_sums(&mut self, h: &crate::types::Hash)
        requires
            old(self).wf(),
        ensures
            final(self).wf(),
            final(self).base() == old(self).base(),
            final(self)@ == old(self)@.remove(sums_key(*h)),
    {
        self.del(to_key(BLOCK_SUMS_PREFIX, h.0.as_slice()));
    }

    /// The positions of the outputs that the block's inputs spend, skipping
    /// those whose position is not indexed.
    fn build_block_input_bitmap(&self, block: &Block) -> (r: croaring::Bitmap)
        ensures
            bitmap_contents(r) == input_positions(self@, block.inputs@),
    {
        let mut bm = croaring::Bitmap::new();
        let ghost m = self@;
        let ghost ins = block.inputs@;
        let mut i: usize = 0;
        assert(input_positions(m, ins.subrange(0, 0)) =~= Set::<u32>::empty());
        while i < block.inputs.len()
            invariant
                m == self@,
                ins == block.inputs@,
                i <= ins.len(),
                bitmap_contents(bm) == input_positions(m, ins.subrange(0, i as int)),
            decreases ins.len() - i,
        {
            let c = block.inputs[i].commitment();
            let pos = self.get_output_pos(&c);
            proof {
                lemma_pos_read(m, c, pos);
            }
            let ghost before = bitmap_contents(bm);
            match pos {
                Ok(p) => {
                    bm.add(p as u32);
                },
                Err(_) => {},
            }
            proof {
                let prev = ins.subrange(0, i as int);
                let next = ins.subrange(0, i + 1);
                assert forall|j: int| 0 <= j < prev.len() implies prev[j] == #[trigger] next[j] by {}
                assert(next[i as int] == ins[i as int]);
                assert(bitmap_contents(bm) =~= input_positions(m, next)) by {
                    assert forall|p: u32| #[trigger] input_positions(m, next).contains(p)
                        implies bitmap_contents(bm).contains(p) by {
                        let j = choose|j: int|
                            0 <= j < next.len() && #[trigger] pos_in(m, next[j].commit) is Some
                                && pos_in(m, next[j].commit)->Some_0 as u32 == p;
                        if j < i {
                            assert(pos_in(m, prev[j].commit) is Some);
                            assert(input_positions(m, prev).contains(p));
                        }
                    }
                    assert forall|p: u32| #[trigger] bitmap_contents(bm).contains(p)
                        implies input_positions(m, next).contains(p) by {
                        if before.contains(p) {
                            let j = choose|j: int|
                                0 <= j < prev.len() && #[trigger] pos_in(m, prev[j].commit) is Some
                                    && pos_in(m, prev[j].commit)->Some_0 as u32 == p;
                            assert(pos_in(m, next[j].commit) is Some);
                        } else {
                            assert(pos_in(m, next[i as int].commit) is Some);
                        }
                    }
                }
            }
            i = i + 1;
        }
        assert(ins.subrange(0, ins.len() as int) =~= ins);
        bm
    }

    /// Builds the bitmap of `block` and caches it under `bh`.
    fn build_and_store_block_input_bitmap(&mut self, bh: &crate::types::Hash, block: &Block) -> (r: croaring::Bitmap)
        requires
            old(self).wf(),
        ensures
            final(self).wf(),
            final(self).base() == old(self).base(),
            bitmap_contents(r) == input_positions(old(self)@, block.inputs@),
            final(self)@ == old(self)@.insert(bitmap_key(*bh), final(self)@[bitmap_key(*bh)]),
            bitmap_cached(final(self)@, *bh) == Some(bitmap_contents(r)),
    {
        let bm = self.build_block_input_bitmap(block);
        self.save_block_input_bitmap(bh, &bm);
        bm
    }

    /// Stores the block with the bitmap of its inputs. The header is not
    /// stored here.
    pub fn save_block(&mut self, b: &Block) -> (r: Result<(), Error>)
        requires
            old(self).wf(),
        ensures
            r is Ok,
            final(self).wf(),
            final(self).base() == old(self).base(),
            exists|h: crate::types::Hash|
                h.0@ == header_hash(b.header) && bitmap_cached(final(self)@, h) == Some(
                    input_positions(old(self)@, b.inputs@),
                ) && final(self)@ == old(self)@.insert(
                    #[trigger] bitmap_key(h),
                    final(self)@[bitmap_key(h)],
                ).insert(block_key(h), ser_block(*b)),
    {
        let hash = b.hash();
        let ghost m0 = self@;
        let _ = self.build_and_store_block_input_bitmap(&hash, b);
        let ghost v = self@[bitmap_key(hash)];
        self.put(to_key(BLOCK_PREFIX, hash.0.as_slice()), block_to_bytes(b));
        assert(self@ == m0.insert(bitmap_key(hash), v).insert(block_key(hash), ser_block(*b)));
        assert(bitmap_key(hash)[0] != block_key(hash)[0]);
        assert(self@[bitmap_key(hash)] == v);
        Ok(())
    }

    /// Deletes the full block, its sums and its bitmap; its header stays.
    pub fn delete_block(&mut self, bh: &crate::types::Hash) -> (r: Result<(), Error>)
        requires
            old(self).wf(),
        ensures
            r is Ok,
            final(self).wf(),
            final(self).base() == old(self).base(),
            final(self)@ == old(self)@.remove(block_key(*bh)).remove(sums_key(*bh)).remove(
                bitmap_key(*bh),
            ),
    {
        self.del(to_key(BLOCK_PREFIX, bh.0.as_slice()));
        self.delete_block_sums(bh);
        self.delete_block_input_bitmap(bh);
        Ok(())
    }

    /// The cached bitmap of the block's inputs; where none is readable, the
    /// bitmap is built from the stored block and cached.
    pub fn get_block_input_bitmap(&mut self, bh: &crate::types::Hash) -> (r: Result<croaring::Bitmap, Error>)
        requires
            old(self).wf(),
        ensures
            final(self).wf(),
            final(self).base() == old(self).base(),
            match bitmap_cached(old(self)@, *bh) {
                Some(set) => r is Ok && bitmap_contents(r->Ok_0) == set && final(self)@ == old(
                    self,
                )@,
                None => match r {
                    Ok(bm) => exists|blk: Block|
                        old(self)@.contains_key(block_key(*bh)) && #[trigger] ser_block(blk) == old(
                            self,
                        )@[block_key(*bh)] && bitmap_contents(bm) == input_positions(
                            old(self)@,
                            blk.inputs@,
                        ) && final(self)@ == old(self)@.insert(
                            bitmap_key(*bh),
                            final(self)@[bitmap_key(*bh)],
                        ) && bitmap_cached(final(self)@, *bh) == Some(bitmap_contents(bm)),
                    Err(e) => read_result(
                        old(self)@,
                        block_key(*bh),
                        Lookup::Block(*bh),
                        Err::<Block, Error>(e),
                        block_codec(),
                        block_valid(),
                    ) && final(self)@ == old(self)@,
                },
            },
    {
        let k = to_key(BLOCK_INPUT_BITMAP_PREFIX, bh.0.as_slice());
        match self.work.get(&k) {
            Some(bytes) => match bitmap_from_bytes(&bytes) {
                Some(bm) => {
                    return Ok(bm);
                },
                None => {},
            },
            None => {},
        }
        match self.get_block(bh) {
            Ok(block) => {
                let bm = self.build_and_store_block_input_bitmap(bh, &block);
                Ok(bm)
            },
            Err(e) => Err(e),
        }
    }

    /// Every decodable full block, with its key, each once.
    #[verifier::rlimit(100)]
    pub fn blocks_iter(&self) -> (r: Vec<(Vec<u8>, Block)>)
        ensures
            forall|i: int|
                0 <= i < r@.len() ==> has_tag((#[trigger] r@[i]).0@, BLOCK_PREFIX)
                    && self@.contains_key(r@[i].0@) && ser_block(r@[i].1) == self@[r@[i].0@],
            forall|k: Seq<u8>, b: Block|
                #![trigger ser_block(b), self@.contains_key(k)]
                self@.contains_key(k) && has_tag(k, BLOCK_PREFIX) && block_fits(b) && ser_block(b)
                    == self@[k] ==> exists|i: int| 0 <= i < r@.len() && r@[i].0@ == k,
            forall|i: int, j: int| 0 <= i < j < r@.len() ==> r@[i].0@ != r@[j].0@,
    {
        let keys = self.work.keys_with_tag(BLOCK_PREFIX);
        let mut r: Vec<(Vec<u8>, Block)> = Vec::new();
        let ghost idx: Seq<int> = Seq::empty();
        let mut i: usize = 0;
        while i < keys.len()
            invariant
                i <= keys@.len(),
                forall|j: int| 0 <= j < keys@.len() ==> self@.contains_key(#[trigger] keys@[j]@)
                    && has_tag(keys@[j]@, BLOCK_PREFIX),
                forall|j: int, j2: int| 0 <= j < j2 < keys@.len() ==> keys@[j]@ != keys@[j2]@,
                forall|k: Seq<u8>| #[trigger] self@.contains_key(k) && has_tag(k, BLOCK_PREFIX)
                    ==> exists|j: int| 0 <= j < keys@.len() && keys@[j]@ == k,
                idx.len() == r@.len(),
                forall|t: int| 0 <= t < r@.len() ==> 0 <= #[trigger] idx[t] < i && r@[t].0@ == keys@[idx[t]]@,
                forall|t: int, t2: int| 0 <= t < t2 < r@.len() ==> idx[t] < idx[t2],
                forall|t: int|
                    0 <= t < r@.len() ==> has_tag((#[trigger] r@[t]).0@, BLOCK_PREFIX)
                        && self@.contains_key(r@[t].0@) && ser_block(r@[t].1) == self@[r@[t].0@],
                forall|j: int, b: Block|
                    #![trigger ser_block(b), keys@[j]]
                    0 <= j < i && block_fits(b) && ser_block(b) == self@[keys@[j]@]
                        ==> exists|t: int| 0 <= t < r@.len() && r@[t].0@ == keys@[j]@,
            decreases keys@.len() - i,
        {
            let k = &keys[i];
            let ghost old_r = r@;
            let ghost ki = keys@[i as int]@;
            match self.work.get(k) {
                Some(bytes) => match block_from_bytes(&bytes) {
                    Some(b) => {
                        proof {
                            idx = idx.push(i as int);
                        }
                        r.push((k.clone(), b));
                        assert(r@[r@.len() - 1].0@ == ki);
                    },
                    None => {
                        assert(forall|b: Block| #[trigger] block_fits(b) ==> ser_block(b) != self@[ki]);
                    },
                },
                None => {},
            }
            proof {
                assert(forall|t: int| 0 <= t < old_r.len() ==> r@[t] == old_r[t]);
                assert forall|j: int, b: Block|
                    #![trigger ser_block(b), keys@[j]]
                    0 <= j < i + 1 && block_fits(b) && ser_block(b) == self@[keys@[j]@]
                        implies exists|t: int| 0 <= t < r@.len() && r@[t].0@ == keys@[j]@ by {
                    if j < i {
                        let t = choose|t: int| 0 <= t < old_r.len() && old_r[t].0@ == keys@[j]@;
                        assert(r@[t] == old_r[t]);
                    } else {
                        assert(r@.len() > old_r.len());
                        assert(r@[r@.len() - 1].0@ == keys@[j]@);
                    }
                }
            }
            i = i + 1;
        }
        proof {
            assert forall|t: int, t2: int| 0 <= t < t2 < r@.len() implies r@[t].0@ != r@[t2].0@ by {
                assert(idx[t] < idx[t2]);
            }
            assert forall|k: Seq<u8>, b: Block|
                #![trigger ser_block(b), self@.contains_key(k)]
                self@.contains_key(k) && has_tag(k, BLOCK_PREFIX) && block_fits(b) && ser_block(b)
                    == self@[k] implies exists|t: int| 0 <= t < r@.len() && r@[t].0@ == k by {
                let j = choose|j: int| 0 <= j < keys@.len() && keys@[j]@ == k;
                assert(ser_block(b) == self@[keys@[j]@]);
            }
        }
        r
    }

    /// Makes the pending writes visible in the store, in order.
    pub fn commit(self, store: &mut ChainStore) -> (r: Result<(), Error>)
        requires
            self.wf(),
        ensures
            r is Ok,
            final(store)@ == apply_writes(old(store)@, self.pending()),
            old(store)@ == self.base() ==> final(store)@ == self@,
    {
        proof {
            self.lemma_view();
        }
        store.db.append_from(&self.work, self.start);
        Ok(())
    }

    /// A batch nested in this one: it starts from what this batch sees, and
    /// committing it with `commit_child` adds its writes to this batch.
    pub fn child(&self) -> (r: Batch)
        requires
            self.wf(),
        ensures
            r.wf(),
            r@ == self@,
            r.base() == self@,
            r.pending() == Seq::<Write>::empty(),
    {
        let b = Batch { work: self.work.copy(), start: self.work.log_len() };
        proof {
            b.lemma_view();
            assert(b.work.writes().subrange(0, b.start as int) =~= b.work.writes());
            assert(b.pending() =~= Seq::<Write>::empty());
        }
        b
    }

    /// Adds the pending writes of a child batch to this batch, in order.
    pub fn commit_child(&mut self, child: Batch) -> (r: Result<(), Error>)
        requires
            old(self).wf(),
            child.wf(),
        ensures
            r is Ok,
            final(self).wf(),
            final(self).base() == old(self).base(),
            final(self)@ == apply_writes(old(self)@, child.pending()),
            old(self)@ == child.base() ==> final(self)@ == child@,
    {
        proof {
            child.lemma_view();
        }
        let ghost before = self.work.writes();
        self.work.append_from(&child.work, child.start);
        assert(self.work.writes().subrange(0, self.start as int) =~= before.subrange(0, self.start as int));
        Ok(())
    }
}

} // verus!
