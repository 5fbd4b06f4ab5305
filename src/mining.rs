//! The decisions of the mining block assembler: the block time, the
//! difficulty era, the fees of a candidate, where its coinbase comes from,
//! how its header is finished, and what to do after a failed attempt. The
//! loop that talks to the chain, the pool and the wallet runs outside.
use vstd::prelude::*;
use vstd::string::StringExecFns;
use crate::keychain::{derive_key_id, path_bytes};
use crate::types::{BlockHeader, Commitment, Identifier, Output, TxKernel};

verus! {

/// The wallet's path for building a coinbase output.
pub const BUILD_COINBASE_PATH: &'static str = "/v1/wallet/foreign/build_coinbase";

/// The wallet's path for building a foundation coinbase output.
pub const BUILD_FOUNDATION_PATH: &'static str = "/v1/wallet/foreign/build_foundation";

/// Milliseconds to wait before asking an unreachable wallet again.
pub const WALLET_RETRY_MS: u64 = 5000;

/// Milliseconds to wait before trying again after a duplicate commitment,
/// or with the same key.
pub const SAME_KEY_RETRY_MS: u64 = 100;

/// Fees of a block, sent to the wallet to build the coinbase output.
#[derive(Clone, Copy, Debug, PartialEq, Eq)]
pub struct BlockFees {
    pub fees: u64,
    pub height: u64,
    pub key_id: Option<Identifier>,
}

impl BlockFees {
    pub fn key_id(&self) -> (r: Option<Identifier>)
        ensures
            r == self.key_id,
    {
        self.key_id
    }
}

/// The wallet's answer: a coinbase output, its kernel and the key used.
#[derive(Clone, Debug, PartialEq, Eq)]
pub struct CbData {
    pub output: Output,
    pub kernel: TxKernel,
    pub key_id: Option<Identifier>,
}

/// A request to the wallet: where to send it, and the fees to send.
#[derive(Clone, Debug, PartialEq, Eq)]
pub struct WalletRequest {
    pub url: String,
    pub block_fees: BlockFees,
}

#[derive(Clone, Debug, PartialEq, Eq)]
pub enum ChainErrorKind {
    /// A coinbase output collides with an existing commitment.
    DuplicateCommitment(Commitment),
    /// A coinbase output is spent before it matured.
    ImmatureCoinbase,
    Other(String),
}

#[derive(Clone, Debug, PartialEq, Eq)]
pub enum MineError {
    Chain(ChainErrorKind),
    /// The wallet could not be reached.
    WalletComm(String),
    /// The fees of the candidate's transactions overflow.
    FeeOverflow,
    /// The chain is at the largest height.
    HeightOverflow,
    Other(String),
}

/// The two strings, one after the other.
fn join_str(a: &str, b: &str) -> (r: String)
    ensures
        r@ == a@ + b@,
{
    String::from_str(a).concat(b)
}

/// Relies on chrono's `Utc::now`: the seconds since the Unix epoch, which
/// may be any value.
#[verifier::external_body]
fn utc_now_sec() -> (r: i64) {
    chrono::Utc::now().timestamp()
}

/// Relies on rand's `thread_rng`: a random value, which may be any.
#[verifier::external_body]
fn random_nonce() -> (r: u64) {
    rand::Rng::gen::<u64>(&mut rand::thread_rng())
}

/// The request for a coinbase output.
pub fn create_coinbase(dest: &str, block_fees: &BlockFees) -> (r: WalletRequest)
    ensures
        r.url@ == dest@ + BUILD_COINBASE_PATH@,
        r.block_fees == *block_fees,
{
    WalletRequest { url: join_str(dest, BUILD_COINBASE_PATH), block_fees: *block_fees }
}

/// The request for a foundation coinbase output.
pub fn create_foundation(dest: &str, block_fees: &BlockFees) -> (r: WalletRequest)
    ensures
        r.url@ == dest@ + BUILD_FOUNDATION_PATH@,
        r.block_fees == *block_fees,
{
    WalletRequest { url: join_str(dest, BUILD_FOUNDATION_PATH), block_fees: *block_fees }
}

/// Where the coinbase of a candidate comes from.
#[derive(Clone, Debug, PartialEq, Eq)]
pub enum CoinbasePlan {
    /// No wallet: the reward is burnt to a throwaway key at this path.
    Burn { block_fees: BlockFees, key_id: Identifier },
    /// Ask the wallet.
    Wallet(WalletRequest),
}

/// The key that a burnt reward goes to.
pub fn burn_reward(block_fees: BlockFees) -> (r: CoinbasePlan)
    ensures
        r matches CoinbasePlan::Burn { block_fees: f, key_id: k } && f == block_fees && k.0@
            == path_bytes(1, 1, 0, 0, 0),
{
    CoinbasePlan::Burn { block_fees, key_id: derive_key_id(1, 1, 0, 0, 0) }
}

/// Burns the reward without a wallet, else asks the wallet.
pub fn get_coinbase(wallet_listener_url: &Option<String>, block_fees: BlockFees) -> (r: CoinbasePlan)
    ensures
        match wallet_listener_url {
            None => r matches CoinbasePlan::Burn { block_fees: f, key_id: k } && f == block_fees
                && k.0@ == path_bytes(1, 1, 0, 0, 0),
            Some(url) => r matches CoinbasePlan::Wallet(req) && req.url@ == url@
                + BUILD_COINBASE_PATH@ && req.block_fees == block_fees,
        },
{
    match wallet_listener_url {
        None => burn_reward(block_fees),
        Some(url) => CoinbasePlan::Wallet(create_coinbase(url.as_str(), &block_fees)),
    }
}

/// The coinbase that the wallet answered, with the fees now naming the
/// wallet's key; a failed call becomes `WalletComm`.
pub fn coinbase_answer(block_fees: BlockFees, answer: Result<CbData, String>) -> (r: Result<
    (Output, TxKernel, BlockFees),
    MineError,
>)
    ensures
        match answer {
            Ok(cb) => r matches Ok((o, k, f)) && o == cb.output && k == cb.kernel && f == (
            BlockFees { key_id: cb.key_id, ..block_fees }),
            Err(msg) => r == Err::<(Output, TxKernel, BlockFees), MineError>(
                MineError::WalletComm(msg),
            ),
        },
{
    match answer {
        Ok(cb) => {
            let fees = BlockFees { key_id: cb.key_id, ..block_fees };
            Ok((cb.output, cb.kernel, fees))
        },
        Err(msg) => Err(MineError::WalletComm(msg)),
    }
}

/// The time of a block on top of a head made at `head_sec`: now, but always
/// later than the head.
pub fn next_block_time(now_sec: i64, head_sec: i64) -> (r: i64)
    requires
        head_sec < i64::MAX,
    ensures
        r == if now_sec > head_sec {
            now_sec
        } else {
            (head_sec + 1) as i64
        },
        r > head_sec,
{
    if now_sec <= head_sec {
        head_sec + 1
    } else {
        now_sec
    }
}

/// The time of a block on top of `head`, from the clock.
pub fn block_timestamp(head: &BlockHeader) -> (r: i64)
    requires
        head.timestamp < i64::MAX,
    ensures
        r > head.timestamp,
{
    next_block_time(utc_now_sec(), head.timestamp)
}

/// Whether the block after a head at `head_height` is retargeted by the
/// second difficulty era, which starts at `difficultyfix_height`.
pub fn uses_era1(head_height: u64, difficultyfix_height: u64) -> (r: bool)
    ensures
        r == !(head_height + 1 < difficultyfix_height),
{
    !(difficultyfix_height > 0 && head_height < difficultyfix_height - 1)
}

pub open spec fn sum_fees(fees: Seq<u64>) -> int
    decreases fees.len(),
{
    if fees.len() == 0 {
        0
    } else {
        sum_fees(fees.drop_last()) + fees.last()
    }
}

/// The fees of a candidate on top of a head at `head_height`, for the key
/// `key_id`.
pub fn block_fees_for(tx_fees: &Vec<u64>, head_height: u64, key_id: Option<Identifier>) -> (r: Result<
    BlockFees,
    MineError,
>)
    ensures
        head_height == u64::MAX ==> r == Err::<BlockFees, MineError>(MineError::HeightOverflow),
        head_height < u64::MAX && sum_fees(tx_fees@) > u64::MAX ==> r == Err::<BlockFees, MineError>(
            MineError::FeeOverflow,
        ),
        head_height < u64::MAX && sum_fees(tx_fees@) <= u64::MAX ==> r == Ok::<BlockFees, MineError>(
            BlockFees { fees: sum_fees(tx_fees@) as u64, height: (head_height + 1) as u64, key_id },
        ),
{
    if head_height == u64::MAX {
        return Err(MineError::HeightOverflow);
    }
    let mut total: u64 = 0;
    let mut i: usize = 0;
    while i < tx_fees.len()
        invariant
            i <= tx_fees@.len(),
            head_height < u64::MAX,
            total == sum_fees(tx_fees@.subrange(0, i as int)),
        decreases tx_fees@.len() - i,
    {
        proof {
            assert(tx_fees@.subrange(0, i + 1).drop_last() =~= tx_fees@.subrange(0, i as int));
        }
        if total > u64::MAX - tx_fees[i] {
            proof {
                lemma_sum_fees_prefix(tx_fees@, i + 1);
            }
            return Err(MineError::FeeOverflow);
        }
        total = total + tx_fees[i];
        i = i + 1;
    }
    assert(tx_fees@.subrange(0, tx_fees@.len() as int) =~= tx_fees@);
    Ok(BlockFees { fees: total, height: head_height + 1, key_id })
}

/// Fees are never negative, so a prefix sums to no more than the whole.
proof fn lemma_sum_fees_prefix(fees: Seq<u64>, n: int)
    requires
        0 <= n <= fees.len(),
    ensures
        sum_fees(fees.subrange(0, n)) <= sum_fees(fees),
    decreases fees.len(),
{
    if n < fees.len() {
        assert(fees.drop_last().subrange(0, n) =~= fees.subrange(0, n));
        lemma_sum_fees_prefix(fees.drop_last(), n);
    } else {
        assert(fees.subrange(0, n) =~= fees);
    }
}

/// Writes the proof-of-work seed, nonce, scaling, time and policy of a
/// candidate header.
pub fn fill_header(
    header: &mut BlockHeader,
    seed: &crate::types::Hash,
    nonce: u64,
    secondary_scaling: u32,
    timestamp: i64,
    policy: u8,
)
    ensures
        final(header).pow.seed == seed.0,
        final(header).pow.nonce == nonce,
        final(header).pow.secondary_scaling == secondary_scaling,
        final(header).timestamp == timestamp,
        final(header).policy == policy,
        final(header).height == old(header).height,
        final(header).prev_hash == old(header).prev_hash,
        final(header).total_difficulty == old(header).total_difficulty,
        final(header).bottles == old(header).bottles,
{
    header.pow.seed = seed.0;
    header.pow.nonce = nonce;
    header.pow.secondary_scaling = secondary_scaling;
    header.timestamp = timestamp;
    header.policy = policy;
}

/// Finishes a candidate on top of `head`: a random nonce, and a time from
/// the clock that is later than the head's.
pub fn finish_header(
    header: &mut BlockHeader,
    head: &BlockHeader,
    seed: &crate::types::Hash,
    secondary_scaling: u32,
    policy: u8,
)
    requires
        head.timestamp < i64::MAX,
    ensures
        final(header).timestamp > head.timestamp,
        final(header).pow.seed == seed.0,
        final(header).pow.secondary_scaling == secondary_scaling,
        final(header).policy == policy,
        final(header).height == old(header).height,
        final(header).prev_hash == old(header).prev_hash,
        final(header).total_difficulty == old(header).total_difficulty,
        final(header).bottles == old(header).bottles,
{
    let now = block_timestamp(head);
    let nonce = random_nonce();
    fill_header(header, seed, nonce, secondary_scaling, now, policy);
}

/// The error of binding a candidate to the MMR roots: a duplicate
/// commitment is kept so that the caller can change keys; anything else
/// becomes `Other` with its description.
pub fn roots_error(e: ChainErrorKind, description: String) -> (r: MineError)
    ensures
        match e {
            ChainErrorKind::DuplicateCommitment(c) => r == MineError::Chain(
                ChainErrorKind::DuplicateCommitment(c),
            ),
            _ => r == MineError::Chain(ChainErrorKind::Other(description)),
        },
{
    match e {
        ChainErrorKind::DuplicateCommitment(c) => MineError::Chain(ChainErrorKind::DuplicateCommitment(c)),
        _ => MineError::Chain(ChainErrorKind::Other(description)),
    }
}

/// What to do after a failed attempt: the key for the next one and how long
/// to wait first.
#[derive(Clone, Copy, Debug, PartialEq, Eq)]
pub struct RetryPlan {
    pub key_id: Option<Identifier>,
    pub wait_ms: u64,
}

/// After a failed attempt with the caller's key `key_id`: a duplicate
/// commitment drops the key, so that a fresh one is derived, and retries
/// after a short wait; an unreachable wallet waits before it is asked again;
/// any other failure retries with the caller's key, after a short wait.
pub fn retry_plan(err: &MineError, key_id: Option<Identifier>) -> (r: RetryPlan)
    ensures
        r.key_id == if err matches MineError::Chain(ChainErrorKind::DuplicateCommitment(_)) {
            None
        } else {
            key_id
        },
        r.wait_ms == (if err is WalletComm {
            WALLET_RETRY_MS
        } else {
            0
        }) + (if r.key_id is Some || err matches MineError::Chain(
            ChainErrorKind::DuplicateCommitment(_),
        ) {
            SAME_KEY_RETRY_MS
        } else {
            0
        }),
{
    let duplicate = match err {
        MineError::Chain(ChainErrorKind::DuplicateCommitment(_)) => true,
        _ => false,
    };
    let next_key = if duplicate {
        None
    } else {
        key_id
    };
    let mut wait: u64 = 0;
    if let MineError::WalletComm(_) = err {
        wait = WALLET_RETRY_MS;
    }
    if duplicate || next_key.is_some() {
        wait = wait + SAME_KEY_RETRY_MS;
    }
    RetryPlan { key_id: next_key, wait_ms: wait }
}

} // verus!
