//! The chain's data model, as plain values.
use vstd::prelude::*;

verus! {

/// Edge bits of the secondary Cuckoo proof-of-work.
pub const SECOND_POW_EDGE_BITS: u8 = 29;

/// A 32-byte content address of a block header (and of its block).
#[derive(Clone, Copy, Debug, PartialEq, Eq)]
pub struct Hash(pub [u8; 32]);

/// A 33-byte Pedersen commitment.
#[derive(Clone, Copy, Debug, PartialEq, Eq)]
pub struct Commitment(pub [u8; 33]);

/// A 17-byte key identifier: the depth followed by four big-endian path
/// components.
#[derive(Clone, Copy, Debug, PartialEq, Eq)]
pub struct Identifier(pub [u8; 17]);

/// The three proof-of-work algorithms.
#[derive(Clone, Copy, Debug, PartialEq, Eq, Structural)]
pub enum PoWType {
    Cuckatoo,
    ProgPow,
    RandomX,
}

/// One scalar per proof-of-work algorithm.
#[derive(Clone, Copy, Debug, PartialEq, Eq, Structural)]
pub struct Difficulty {
    pub cuckatoo: u64,
    pub progpow: u64,
    pub randomx: u64,
}

impl Difficulty {
    pub open spec fn spec_to_num(self, algo: PoWType) -> u64 {
        match algo {
            PoWType::Cuckatoo => self.cuckatoo,
            PoWType::ProgPow => self.progpow,
            PoWType::RandomX => self.randomx,
        }
    }

    /// Component-wise subtraction, saturating at zero.
    pub open spec fn spec_minus(self, other: Difficulty) -> Difficulty {
        Difficulty {
            cuckatoo: sat_sub(self.cuckatoo, other.cuckatoo),
            progpow: sat_sub(self.progpow, other.progpow),
            randomx: sat_sub(self.randomx, other.randomx),
        }
    }

    /// Whether `self` is at least `other` on every algorithm.
    pub open spec fn dominates(self, other: Difficulty) -> bool {
        self.cuckatoo >= other.cuckatoo && self.progpow >= other.progpow && self.randomx
            >= other.randomx
    }

    pub fn zero() -> (r: Difficulty)
        ensures
            r == (Difficulty { cuckatoo: 0, progpow: 0, randomx: 0 }),
    {
        Difficulty { cuckatoo: 0, progpow: 0, randomx: 0 }
    }

    pub fn to_num(&self, algo: PoWType) -> (r: u64)
        ensures
            r == self.spec_to_num(algo),
    {
        match algo {
            PoWType::Cuckatoo => self.cuckatoo,
            PoWType::ProgPow => self.progpow,
            PoWType::RandomX => self.randomx,
        }
    }

    pub fn minus(&self, other: &Difficulty) -> (r: Difficulty)
        ensures
            r == self.spec_minus(*other),
    {
        Difficulty {
            cuckatoo: self.cuckatoo.saturating_sub(other.cuckatoo),
            progpow: self.progpow.saturating_sub(other.progpow),
            randomx: self.randomx.saturating_sub(other.randomx),
        }
    }
}

pub open spec fn sat_sub(a: u64, b: u64) -> u64 {
    if a >= b {
        (a - b) as u64
    } else {
        0
    }
}

/// Remaining "bottles" per algorithm in the current emission window.
#[derive(Clone, Copy, Debug, PartialEq, Eq, Structural)]
pub struct Policy {
    pub cuckatoo: u32,
    pub progpow: u32,
    pub randomx: u32,
}

impl Policy {
    pub open spec fn spec_get(self, algo: PoWType) -> u32 {
        match algo {
            PoWType::Cuckatoo => self.cuckatoo,
            PoWType::ProgPow => self.progpow,
            PoWType::RandomX => self.randomx,
        }
    }

    pub fn get(&self, algo: PoWType) -> (r: u32)
        ensures
            r == self.spec_get(algo),
    {
        match algo {
            PoWType::Cuckatoo => self.cuckatoo,
            PoWType::ProgPow => self.progpow,
            PoWType::RandomX => self.randomx,
        }
    }
}

/// The solution carried by a header; its variant decides the algorithm.
#[derive(Clone, Debug, PartialEq, Eq)]
pub enum Proof {
    CuckooProof { edge_bits: u8, nonces: Vec<u64> },
    ProgPowProof { mix: [u8; 32] },
    RandomXProof { hash: [u8; 32] },
}

impl Proof {
    pub open spec fn spec_pow_type(&self) -> PoWType {
        match self {
            Proof::CuckooProof { .. } => PoWType::Cuckatoo,
            Proof::ProgPowProof { .. } => PoWType::ProgPow,
            Proof::RandomXProof { .. } => PoWType::RandomX,
        }
    }

    pub open spec fn spec_is_secondary(&self) -> bool {
        match self {
            Proof::CuckooProof { edge_bits, .. } => *edge_bits == SECOND_POW_EDGE_BITS,
            _ => false,
        }
    }

    /// The algorithm that produced this proof.
    pub fn pow_type(&self) -> (r: PoWType)
        ensures
            r == self.spec_pow_type(),
    {
        match self {
            Proof::CuckooProof { .. } => PoWType::Cuckatoo,
            Proof::ProgPowProof { .. } => PoWType::ProgPow,
            Proof::RandomXProof { .. } => PoWType::RandomX,
        }
    }

    /// Whether this is a proof of the secondary Cuckoo variant.
    pub fn is_secondary(&self) -> (r: bool)
        ensures
            r == self.spec_is_secondary(),
    {
        match self {
            Proof::CuckooProof { edge_bits, .. } => *edge_bits == SECOND_POW_EDGE_BITS,
            _ => false,
        }
    }
}

#[derive(Clone, Debug, PartialEq, Eq)]
pub struct ProofOfWork {
    pub proof: Proof,
    pub secondary_scaling: u32,
    pub nonce: u64,
    pub seed: [u8; 32],
}

impl ProofOfWork {
    pub fn is_secondary(&self) -> (r: bool)
        ensures
            r == self.proof.spec_is_secondary(),
    {
        self.proof.is_secondary()
    }
}

#[derive(Clone, Debug, PartialEq, Eq)]
pub struct BlockHeader {
    pub height: u64,
    /// Seconds since the Unix epoch.
    pub timestamp: i64,
    pub prev_hash: Hash,
    pub output_root: Hash,
    pub kernel_root: Hash,
    pub output_mmr_size: u64,
    pub kernel_mmr_size: u64,
    pub total_difficulty: Difficulty,
    pub pow: ProofOfWork,
    pub policy: u8,
    pub bottles: Policy,
}

impl BlockHeader {
    pub open spec fn spec_pow_type(&self) -> PoWType {
        self.pow.proof.spec_pow_type()
    }

    pub fn pow_type(&self) -> (r: PoWType)
        ensures
            r == self.spec_pow_type(),
    {
        self.pow.proof.pow_type()
    }

    pub fn total_difficulty(&self) -> (r: Difficulty)
        ensures
            r == self.total_difficulty,
    {
        self.total_difficulty
    }
}

/// Summary of a chain endpoint.
#[derive(Clone, Copy, Debug, PartialEq, Eq)]
pub struct Tip {
    pub last_block_h: Hash,
    pub prev_block_h: Hash,
    pub height: u64,
    pub total_difficulty: Difficulty,
}

#[derive(Clone, Copy, Debug, PartialEq, Eq, Structural)]
pub enum OutputFeatures {
    Plain,
    Coinbase,
}

#[derive(Clone, Copy, Debug, PartialEq, Eq, Structural)]
pub enum KernelFeatures {
    Plain,
    Coinbase,
    HeightLocked,
}

/// A reference to the output being spent.
#[derive(Clone, Copy, Debug, PartialEq, Eq)]
pub struct Input {
    pub features: OutputFeatures,
    pub commit: Commitment,
}

impl Input {
    pub fn commitment(&self) -> (r: Commitment)
        ensures
            r == self.commit,
    {
        self.commit
    }
}

#[derive(Clone, Debug, PartialEq, Eq)]
pub struct Output {
    pub features: OutputFeatures,
    pub commit: Commitment,
    /// The range proof, as bytes.
    pub proof: Vec<u8>,
}

#[derive(Clone, Copy, Debug, PartialEq, Eq)]
pub struct TxKernel {
    pub features: KernelFeatures,
    pub fee: u64,
    pub lock_height: u64,
    pub excess: Commitment,
    pub excess_sig: [u8; 64],
}

#[derive(Clone, Debug, PartialEq, Eq)]
pub struct Block {
    pub header: BlockHeader,
    pub inputs: Vec<Input>,
    pub outputs: Vec<Output>,
    pub kernels: Vec<TxKernel>,
}

/// Running totals of a chain up to a block.
#[derive(Clone, Copy, Debug, PartialEq, Eq)]
pub struct BlockSums {
    pub utxo_sum: Commitment,
    pub kernel_sum: Commitment,
}

/// One retarget sample produced by a walk over the chain.
#[derive(Clone, Copy, Debug, PartialEq, Eq, Structural)]
pub struct HeaderInfo {
    pub timestamp: u64,
    pub difficulty: Difficulty,
    pub secondary_scaling: u32,
    pub is_secondary: bool,
    pub timespan: u64,
}

} // verus!
