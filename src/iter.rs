//! Walks from a header toward genesis that produce the samples used for
//! retargeting and the bottle vectors used by the emission policy.
//!
//! A header's parent is the header stored under its `prev_hash`, taken only
//! when its height is lower: on a well-formed chain it is one lower, and the
//! rule makes every walk end.
use std::sync::Arc;
use vstd::prelude::*;
use crate::records::header_fits;
use crate::store::{
    header_codec, header_in, header_key, header_valid, lemma_header_read, read_result,
    same_fields, Batch, ChainStore, Error, Lookup,
};
use crate::types::{BlockHeader, HeaderInfo, Policy, PoWType};

verus! {

/// Seconds assumed between a header and a missing predecessor.
pub const BLOCK_TIME_SEC: u64 = 60;

/// How many ancestors a bottle walk looks through for a header of its policy.
pub const POLICY_SEARCH_LIMIT: u64 = 200;

/// Where a walk reads headers: the store, a batch it owns, or a batch it
/// borrows.
pub enum ChainSource<'a> {
    Store(Arc<ChainStore>),
    Batch(Batch),
    BatchRef(&'a Batch),
}

impl<'a> ChainSource<'a> {
    pub open spec fn kv(&self) -> Map<Seq<u8>, Seq<u8>> {
        match self {
            ChainSource::Store(s) => s@,
            ChainSource::Batch(b) => b@,
            ChainSource::BatchRef(b) => b@,
        }
    }

    pub fn get_block_header(&self, h: &crate::types::Hash) -> (r: Result<BlockHeader, Error>)
        ensures
            read_result(
                self.kv(),
                header_key(*h),
                Lookup::BlockHeader(*h),
                r,
                header_codec(),
                header_valid(),
            ),
            r is Ok ==> header_fits(r->Ok_0),
    {
        match self {
            ChainSource::Store(s) => s.get_block_header(h),
            ChainSource::Batch(b) => b.get_block_header(h),
            ChainSource::BatchRef(b) => b.get_block_header(h),
        }
    }
}

/// The parent of `h` in `m`.
pub open spec fn parent(m: Map<Seq<u8>, Seq<u8>>, h: BlockHeader) -> Option<BlockHeader> {
    match header_in(m, h.prev_hash) {
        Some(p) => if p.height < h.height {
            Some(p)
        } else {
            None
        },
        None => None,
    }
}

/// `a - b` in seconds, saturating at zero and at `i64::MAX`.
pub open spec fn timespan(a: i64, b: i64) -> u64 {
    if a <= b {
        0
    } else if a - b > i64::MAX {
        i64::MAX as u64
    } else {
        (a - b) as u64
    }
}

pub fn timespan_of(a: i64, b: i64) -> (r: u64)
    ensures
        r == timespan(a, b),
{
    if a <= b {
        0
    } else {
        let d: i128 = a as i128 - b as i128;
        if d > i64::MAX as i128 {
            i64::MAX as u64
        } else {
            d as u64
        }
    }
}

/// Reads the parent of `h`: a header that agrees with `parent` on every
/// field that a walk reads.
fn read_parent(src: &ChainSource, h: &BlockHeader) -> (r: Option<BlockHeader>)
    ensures
        match r {
            Some(p) => parent(src.kv(), *h) is Some && same_fields(p, parent(src.kv(), *h)->Some_0)
                && header_fits(p) && p.height < h.height,
            None => parent(src.kv(), *h) is None,
        },
{
    let got = src.get_block_header(&h.prev_hash);
    proof {
        lemma_header_read(src.kv(), h.prev_hash, got);
    }
    match got {
        Ok(p) => if p.height < h.height {
            Some(p)
        } else {
            None
        },
        Err(_) => None,
    }
}

/// The sample of `h` with `prev` as its predecessor: the difficulty added
/// by `h` and the time since `prev`.
pub open spec fn sample(h: BlockHeader, prev: Option<BlockHeader>) -> HeaderInfo {
    HeaderInfo {
        timestamp: h.timestamp as u64,
        difficulty: match prev {
            Some(p) => h.total_difficulty.spec_minus(p.total_difficulty),
            None => h.total_difficulty,
        },
        secondary_scaling: h.pow.secondary_scaling,
        is_secondary: h.pow.proof.spec_is_secondary(),
        timespan: match prev {
            Some(p) => timespan(h.timestamp, p.timestamp),
            None => BLOCK_TIME_SEC,
        },
    }
}

fn sample_of(h: &BlockHeader, prev: &Option<BlockHeader>) -> (r: HeaderInfo)
    ensures
        r == sample(*h, *prev),
{
    let (difficulty, span) = match prev {
        Some(p) => (h.total_difficulty.minus(&p.total_difficulty), timespan_of(h.timestamp, p.timestamp)),
        None => (h.total_difficulty, BLOCK_TIME_SEC),
    };
    HeaderInfo {
        timestamp: h.timestamp as u64,
        difficulty,
        secondary_scaling: h.pow.secondary_scaling,
        is_secondary: h.pow.is_secondary(),
        timespan: span,
    }
}

pub proof fn lemma_sample_same_fields(a: BlockHeader, b: BlockHeader, pa: Option<BlockHeader>, pb: Option<BlockHeader>)
    requires
        same_fields(a, b),
        pa is Some <==> pb is Some,
        pa is Some ==> same_fields(pa->Some_0, pb->Some_0),
    ensures
        sample(a, pa) == sample(b, pb),
{
}

// ---------------------------------------------------------------- every ancestor

/// The samples of `h` and of each of its ancestors, newest first.
pub open spec fn all_samples(m: Map<Seq<u8>, Seq<u8>>, h: BlockHeader) -> Seq<HeaderInfo>
    decreases h.height,
{
    match header_in(m, h.prev_hash) {
        Some(p) => if p.height < h.height {
            seq![sample(h, Some(p))] + all_samples(m, p)
        } else {
            seq![sample(h, None)]
        },
        None => seq![sample(h, None)],
    }
}

pub proof fn lemma_all_samples_same_fields(m: Map<Seq<u8>, Seq<u8>>, a: BlockHeader, b: BlockHeader)
    requires
        same_fields(a, b),
    ensures
        all_samples(m, a) == all_samples(m, b),
{
}

/// A walk that yields a sample for every ancestor, whatever its algorithm.
pub struct DifficultyIterAll<'a> {
    start: crate::types::Hash,
    source: ChainSource<'a>,
    started: bool,
    upcoming: Option<BlockHeader>,
}

impl<'a> DifficultyIterAll<'a> {
    /// What the walk reads.
    pub closed spec fn kv(&self) -> Map<Seq<u8>, Seq<u8>> {
        self.source.kv()
    }

    /// The samples that the walk has still to yield.
    pub closed spec fn remaining(&self) -> Seq<HeaderInfo> {
        let m = self.source.kv();
        let next = if self.started {
            self.upcoming
        } else {
            header_in(m, self.start)
        };
        match next {
            Some(h) => all_samples(m, h),
            None => Seq::empty(),
        }
    }

    pub closed spec fn wf(&self) -> bool {
        self.upcoming is Some ==> header_fits(self.upcoming->Some_0)
    }

    pub fn from(start: crate::types::Hash, store: Arc<ChainStore>) -> (r: DifficultyIterAll<'a>)
        ensures
            r.wf(),
            r.kv() == store@,
            r.remaining() == match header_in(store@, start) {
                Some(h) => all_samples(store@, h),
                None => Seq::empty(),
            },
    {
        DifficultyIterAll { start, source: ChainSource::Store(store), started: false, upcoming: None }
    }

    pub fn from_batch(start: crate::types::Hash, batch: Batch) -> (r: DifficultyIterAll<'a>)
        ensures
            r.wf(),
            r.kv() == batch@,
            r.remaining() == match header_in(batch@, start) {
                Some(h) => all_samples(batch@, h),
                None => Seq::empty(),
            },
    {
        DifficultyIterAll { start, source: ChainSource::Batch(batch), started: false, upcoming: None }
    }

    /// The next sample: the first of `remaining`, which loses it.
    pub fn next(&mut self) -> (r: Option<HeaderInfo>)
        requires
            old(self).wf(),
        ensures
            final(self).wf(),
            final(self).kv() == old(self).kv(),
            old(self).remaining().len() == 0 ==> r is None && final(self).remaining().len() == 0,
            old(self).remaining().len() > 0 ==> r == Some(old(self).remaining()[0])
                && final(self).remaining() == old(self).remaining().drop_first(),
    {
        let ghost m = self.source.kv();
        let h = if !self.started {
            self.started = true;
            let got = self.source.get_block_header(&self.start);
            proof {
                lemma_header_read(m, self.start, got);
            }
            match got {
                Ok(h) => {
                    proof {
                        lemma_all_samples_same_fields(m, h, header_in(m, self.start)->Some_0);
                    }
                    h
                },
                Err(_) => {
                    self.upcoming = None;
                    return None;
                },
            }
        } else {
            match self.upcoming.take() {
                Some(h) => h,
                None => {
                    return None;
                },
            }
        };
        let prev = read_parent(&self.source, &h);
        let info = sample_of(&h, &prev);
        proof {
            match prev {
                Some(ref p) => {
                    let p = *p;
                    let pc = parent(m, h)->Some_0;
                    lemma_all_samples_same_fields(m, p, pc);
                    assert(all_samples(m, h) == seq![sample(h, Some(pc))] + all_samples(m, pc));
                    assert(all_samples(m, h).drop_first() =~= all_samples(m, p));
                },
                None => {
                    assert(all_samples(m, h) == seq![sample(h, None)]);
                    assert(all_samples(m, h).drop_first() =~= Seq::<HeaderInfo>::empty());
                },
            }
        }
        self.upcoming = prev;
        Some(info)
    }
}

// ---------------------------------------------------------------- ancestors of one algorithm

/// The sample of `h` in `m`, taken against its immediate parent.
pub open spec fn difficulty_of(m: Map<Seq<u8>, Seq<u8>>) -> spec_fn(BlockHeader) -> HeaderInfo {
    |x: BlockHeader| sample(x, parent(m, x))
}

/// The headers that a walk filtered by the algorithm of `h` visits: `h`,
/// then the nearest ancestor of the same algorithm, and so on.
pub open spec fn typed_walk(m: Map<Seq<u8>, Seq<u8>>, h: BlockHeader) -> Seq<BlockHeader>
    decreases h.height, 1int,
{
    seq![h] + typed_scan(m, h.pow.proof.spec_pow_type(), h)
}

/// The walk from the nearest strict ancestor of `cur` of algorithm `t`.
pub open spec fn typed_scan(m: Map<Seq<u8>, Seq<u8>>, t: PoWType, cur: BlockHeader) -> Seq<BlockHeader>
    decreases cur.height, 0int,
{
    match header_in(m, cur.prev_hash) {
        Some(p) => if p.height < cur.height {
            if p.pow.proof.spec_pow_type() == t {
                typed_walk(m, p)
            } else {
                typed_scan(m, t, p)
            }
        } else {
            Seq::empty()
        },
        None => Seq::empty(),
    }
}

/// The samples of a walk filtered by the algorithm of `h`.
pub open spec fn typed_samples(m: Map<Seq<u8>, Seq<u8>>, h: BlockHeader) -> Seq<HeaderInfo> {
    typed_walk(m, h).map_values(difficulty_of(m))
}

proof fn lemma_scan_same_fields(m: Map<Seq<u8>, Seq<u8>>, t: PoWType, a: BlockHeader, b: BlockHeader)
    requires
        a.prev_hash == b.prev_hash,
        a.height == b.height,
    ensures
        typed_scan(m, t, a) == typed_scan(m, t, b),
{
}

proof fn lemma_typed_samples_same_fields(m: Map<Seq<u8>, Seq<u8>>, a: BlockHeader, b: BlockHeader)
    requires
        same_fields(a, b),
    ensures
        typed_samples(m, a) == typed_samples(m, b),
{
    lemma_scan_same_fields(m, a.pow.proof.spec_pow_type(), a, b);
    let wa = typed_walk(m, a);
    let wb = typed_walk(m, b);
    assert(wa.len() == wb.len());
    assert(difficulty_of(m)(a) == difficulty_of(m)(b));
    assert forall|i: int| 0 <= i < wa.len() implies #[trigger] wa.map_values(difficulty_of(m))[i]
        == wb.map_values(difficulty_of(m))[i] by {
        if i > 0 {
            assert(wa[i] == wb[i]);
        }
    }
    assert(wa.map_values(difficulty_of(m)) =~= wb.map_values(difficulty_of(m)));
}

/// The nearest strict ancestor of `h` of algorithm `t`, read from `src`.
fn find_same_type(src: &ChainSource, h: &BlockHeader, t: PoWType) -> (r: Option<BlockHeader>)
    requires
        header_fits(*h),
    ensures
        match r {
            Some(a) => header_fits(a) && typed_scan(src.kv(), t, *h).map_values(difficulty_of(src.kv()))
                == typed_samples(src.kv(), a),
            None => typed_scan(src.kv(), t, *h) == Seq::<BlockHeader>::empty(),
        },
{
    let ghost m = src.kv();
    let mut cur = match read_parent(src, h) {
        Some(p) => p,
        None => {
            return None;
        },
    };
    let ghost c0 = parent(m, *h)->Some_0;
    if cur.pow_type() == t {
        proof {
            lemma_typed_samples_same_fields(m, cur, c0);
        }
        return Some(cur);
    }
    proof {
        lemma_scan_same_fields(m, t, cur, c0);
    }
    loop
        invariant
            m == src.kv(),
            header_fits(cur),
            cur.pow.proof.spec_pow_type() != t,
            typed_scan(m, t, *h) == typed_scan(m, t, cur),
        decreases cur.height,
    {
        match read_parent(src, &cur) {
            Some(p) => {
                let ghost pc = parent(m, cur)->Some_0;
                if p.pow_type() == t {
                    proof {
                        lemma_typed_samples_same_fields(m, p, pc);
                    }
                    return Some(p);
                }
                proof {
                    lemma_scan_same_fields(m, t, p, pc);
                }
                cur = p;
            },
            None => {
                return None;
            },
        }
    }
}

/// A walk that yields a sample for the start and then for each nearest
/// ancestor of the start's algorithm. Each sample measures against the
/// header's immediate parent, whatever its algorithm.
pub struct DifficultyIter<'a> {
    start: crate::types::Hash,
    source: ChainSource<'a>,
    started: bool,
    upcoming: Option<BlockHeader>,
}

impl<'a> DifficultyIter<'a> {
    /// What the walk reads.
    pub closed spec fn kv(&self) -> Map<Seq<u8>, Seq<u8>> {
        self.source.kv()
    }

    /// The samples that the walk has still to yield.
    pub closed spec fn remaining(&self) -> Seq<HeaderInfo> {
        let m = self.source.kv();
        let next = if self.started {
            self.upcoming
        } else {
            header_in(m, self.start)
        };
        match next {
            Some(h) => typed_samples(m, h),
            None => Seq::empty(),
        }
    }

    pub closed spec fn wf(&self) -> bool {
        self.upcoming is Some ==> header_fits(self.upcoming->Some_0)
    }

    pub fn from(start: crate::types::Hash, store: Arc<ChainStore>) -> (r: DifficultyIter<'a>)
        ensures
            r.wf(),
            r.kv() == store@,
            r.remaining() == match header_in(store@, start) {
                Some(h) => typed_samples(store@, h),
                None => Seq::empty(),
            },
    {
        DifficultyIter { start, source: ChainSource::Store(store), started: false, upcoming: None }
    }

    pub fn from_batch(start: crate::types::Hash, batch: Batch) -> (r: DifficultyIter<'a>)
        ensures
            r.wf(),
            r.kv() == batch@,
            r.remaining() == match header_in(batch@, start) {
                Some(h) => typed_samples(batch@, h),
                None => Seq::empty(),
            },
    {
        DifficultyIter { start, source: ChainSource::Batch(batch), started: false, upcoming: None }
    }

    /// The next sample: the first of `remaining`, which loses it.
    #[verifier::rlimit(80)]
    pub fn next(&mut self) -> (r: Option<HeaderInfo>)
        requires
            old(self).wf(),
        ensures
            final(self).wf(),
            final(self).kv() == old(self).kv(),
            old(self).remaining().len() == 0 ==> r is None && final(self).remaining().len() == 0,
            old(self).remaining().len() > 0 ==> r == Some(old(self).remaining()[0])
                && final(self).remaining() == old(self).remaining().drop_first(),
    {
        let ghost m = self.source.kv();
        let h = if !self.started {
            self.started = true;
            let got = self.source.get_block_header(&self.start);
            proof {
                lemma_header_read(m, self.start, got);
            }
            match got {
                Ok(h) => {
                    proof {
                        lemma_typed_samples_same_fields(m, h, header_in(m, self.start)->Some_0);
                    }
                    h
                },
                Err(_) => {
                    self.upcoming = None;
                    return None;
                },
            }
        } else {
            match self.upcoming.take() {
                Some(h) => h,
                None => {
                    return None;
                },
            }
        };
        let prev = read_parent(&self.source, &h);
        let info = sample_of(&h, &prev);
        let t = h.pow_type();
        let next = find_same_type(&self.source, &h, t);
        proof {
            let w = typed_walk(m, h);
            let f = difficulty_of(m);
            assert(f(h) == sample(h, parent(m, h)));
            match prev {
                Some(ref p) => {
                    lemma_sample_same_fields(h, h, prev, parent(m, h));
                },
                None => {},
            }
            assert(w.map_values(f)[0] == info);
            assert(w.map_values(f).drop_first() =~= typed_scan(m, t, h).map_values(f));
            match next {
                Some(ref a) => {},
                None => {
                    assert(typed_scan(m, t, h).map_values(f) =~= Seq::<HeaderInfo>::empty());
                },
            }
        }
        self.upcoming = next;
        Some(info)
    }
}

// ---------------------------------------------------------------- bottles of one policy

/// The bottle vectors that a walk for policy `pol` yields from `h`: those of
/// `h` where it has the policy, else those of the nearest ancestor within the
/// window that has it; then those of the walk from that ancestor.
pub open spec fn bottles_from(m: Map<Seq<u8>, Seq<u8>>, pol: u8, h: BlockHeader) -> Seq<Policy>
    decreases h.height, 1int, 0int,
{
    let s = policy_scan(m, pol, h, POLICY_SEARCH_LIMIT as nat);
    if h.policy == pol {
        seq![h.bottles] + s
    } else if s.len() > 0 {
        seq![s[0]] + s
    } else {
        Seq::empty()
    }
}

/// The walk from the nearest of the next `n` ancestors of `cur` with policy
/// `pol`; empty where none of them has it.
pub open spec fn policy_scan(m: Map<Seq<u8>, Seq<u8>>, pol: u8, cur: BlockHeader, n: nat) -> Seq<Policy>
    decreases cur.height, 0int, n,
{
    if n == 0 {
        Seq::empty()
    } else {
        match header_in(m, cur.prev_hash) {
            Some(p) => if p.height < cur.height {
                if p.policy == pol {
                    bottles_from(m, pol, p)
                } else {
                    policy_scan(m, pol, p, (n - 1) as nat)
                }
            } else {
                Seq::empty()
            },
            None => Seq::empty(),
        }
    }
}

proof fn lemma_policy_scan_same_fields(m: Map<Seq<u8>, Seq<u8>>, pol: u8, a: BlockHeader, b: BlockHeader, n: nat)
    requires
        a.prev_hash == b.prev_hash,
        a.height == b.height,
    ensures
        policy_scan(m, pol, a, n) == policy_scan(m, pol, b, n),
{
}

proof fn lemma_bottles_same_fields(m: Map<Seq<u8>, Seq<u8>>, pol: u8, a: BlockHeader, b: BlockHeader)
    requires
        same_fields(a, b),
    ensures
        bottles_from(m, pol, a) == bottles_from(m, pol, b),
{
    lemma_policy_scan_same_fields(m, pol, a, b, POLICY_SEARCH_LIMIT as nat);
}

/// The nearest of the next `POLICY_SEARCH_LIMIT` ancestors of `h` with
/// policy `pol`, read from `src`.
fn find_policy(src: &ChainSource, h: &BlockHeader, pol: u8) -> (r: Option<BlockHeader>)
    requires
        header_fits(*h),
    ensures
        match r {
            Some(a) => header_fits(a) && a.policy == pol && policy_scan(
                src.kv(),
                pol,
                *h,
                POLICY_SEARCH_LIMIT as nat,
            ) == bottles_from(src.kv(), pol, a),
            None => policy_scan(src.kv(), pol, *h, POLICY_SEARCH_LIMIT as nat) == Seq::<Policy>::empty(),
        },
{
    let ghost m = src.kv();
    let mut cur = match read_parent(src, h) {
        Some(p) => p,
        None => {
            return None;
        },
    };
    let ghost c0 = parent(m, *h)->Some_0;
    if cur.policy == pol {
        proof {
            lemma_bottles_same_fields(m, pol, cur, c0);
        }
        return Some(cur);
    }
    let mut n: u64 = POLICY_SEARCH_LIMIT - 1;
    proof {
        lemma_policy_scan_same_fields(m, pol, cur, c0, n as nat);
    }
    loop
        invariant
            m == src.kv(),
            header_fits(cur),
            n < POLICY_SEARCH_LIMIT,
            policy_scan(m, pol, *h, POLICY_SEARCH_LIMIT as nat) == policy_scan(m, pol, cur, n as nat),
        decreases n,
    {
        if n == 0 {
            return None;
        }
        match read_parent(src, &cur) {
            Some(p) => {
                let ghost pc = parent(m, cur)->Some_0;
                if p.policy == pol {
                    proof {
                        lemma_bottles_same_fields(m, pol, p, pc);
                    }
                    return Some(p);
                }
                proof {
                    lemma_policy_scan_same_fields(m, pol, p, pc, (n - 1) as nat);
                }
                cur = p;
                n = n - 1;
            },
            None => {
                return None;
            },
        }
    }
}

/// A walk that yields the bottle vectors of the headers of one policy.
pub struct BottleIter<'a> {
    start: crate::types::Hash,
    source: ChainSource<'a>,
    policy: u8,
    started: bool,
    upcoming: Option<BlockHeader>,
}

impl<'a> BottleIter<'a> {
    /// What the walk reads.
    pub closed spec fn kv(&self) -> Map<Seq<u8>, Seq<u8>> {
        self.source.kv()
    }

    pub closed spec fn policy(&self) -> u8 {
        self.policy
    }

    /// The bottle vectors that the walk has still to yield.
    pub closed spec fn remaining(&self) -> Seq<Policy> {
        let m = self.source.kv();
        let next = if self.started {
            self.upcoming
        } else {
            header_in(m, self.start)
        };
        match next {
            Some(h) => bottles_from(m, self.policy, h),
            None => Seq::empty(),
        }
    }

    pub closed spec fn wf(&self) -> bool {
        self.upcoming is Some ==> header_fits(self.upcoming->Some_0)
    }

    pub fn from(start: crate::types::Hash, store: Arc<ChainStore>, policy: u8) -> (r: BottleIter<'a>)
        ensures
            r.wf(),
            r.kv() == store@,
            r.policy() == policy,
            r.remaining() == match header_in(store@, start) {
                Some(h) => bottles_from(store@, policy, h),
                None => Seq::empty(),
            },
    {
        BottleIter { start, source: ChainSource::Store(store), policy, started: false, upcoming: None }
    }

    pub fn from_batch(start: crate::types::Hash, batch: &'a Batch, policy: u8) -> (r: BottleIter<'a>)
        ensures
            r.wf(),
            r.kv() == batch@,
            r.policy() == policy,
            r.remaining() == match header_in(batch@, start) {
                Some(h) => bottles_from(batch@, policy, h),
                None => Seq::empty(),
            },
    {
        BottleIter { start, source: ChainSource::BatchRef(batch), policy, started: false, upcoming: None }
    }

    /// The next bottle vector: the first of `remaining`, which loses it.
    pub fn next(&mut self) -> (r: Option<Policy>)
        requires
            old(self).wf(),
        ensures
            final(self).wf(),
            final(self).kv() == old(self).kv(),
            final(self).policy() == old(self).policy(),
            old(self).remaining().len() == 0 ==> r is None && final(self).remaining().len() == 0,
            old(self).remaining().len() > 0 ==> r == Some(old(self).remaining()[0])
                && final(self).remaining() == old(self).remaining().drop_first(),
    {
        let ghost m = self.source.kv();
        let pol = self.policy;
        let h = if !self.started {
            self.started = true;
            let got = self.source.get_block_header(&self.start);
            proof {
                lemma_header_read(m, self.start, got);
            }
            match got {
                Ok(h) => {
                    proof {
                        lemma_bottles_same_fields(m, pol, h, header_in(m, self.start)->Some_0);
                    }
                    h
                },
                Err(_) => {
                    self.upcoming = None;
                    return None;
                },
            }
        } else {
            match self.upcoming.take() {
                Some(h) => h,
                None => {
                    return None;
                },
            }
        };
        let found = find_policy(&self.source, &h, pol);
        let ghost s = policy_scan(m, pol, h, POLICY_SEARCH_LIMIT as nat);
        if h.policy == pol {
            let b = h.bottles;
            proof {
                assert(bottles_from(m, pol, h).drop_first() =~= s);
                match found {
                    Some(ref a) => {},
                    None => {},
                }
            }
            self.upcoming = found;
            Some(b)
        } else {
            match found {
                Some(a) => {
                    let b = a.bottles;
                    proof {
                        assert(bottles_from(m, pol, a)[0] == b);
                        assert(bottles_from(m, pol, h).drop_first() =~= s);
                    }
                    self.upcoming = Some(a);
                    Some(b)
                },
                None => {
                    self.upcoming = None;
                    None
                },
            }
        }
    }
}

} // verus!
