use epic_chain_core::keychain::{derive_key_id, root_key_id};
use epic_chain_core::mining::{
    block_fees_for, burn_reward, coinbase_answer, create_coinbase, create_foundation, get_coinbase,
    next_block_time, retry_plan, roots_error, uses_era1, BlockFees, CbData, ChainErrorKind,
    CoinbasePlan, MineError, RetryPlan,
};
use epic_chain_core::mining::{fill_header, finish_header};
use epic_chain_core::types::{
    BlockHeader, Commitment, Difficulty, Identifier, KernelFeatures, Output, OutputFeatures, Policy,
    PoWType, Proof, ProofOfWork, TxKernel,
};

fn fees(key: Option<Identifier>) -> BlockFees {
    BlockFees { fees: 10, height: 5, key_id: key }
}

#[test]
fn key_ids_are_depth_then_big_endian_path() {
    let k = derive_key_id(1, 1, 0, 0, 0);
    let mut expected = [0u8; 17];
    expected[0] = 1;
    expected[4] = 1;
    assert_eq!(k, Identifier(expected));
    let k = derive_key_id(3, 0x01020304, 5, 0, 0xffffffff);
    assert_eq!(
        k.0,
        [3, 1, 2, 3, 4, 0, 0, 0, 5, 0, 0, 0, 0, 0xff, 0xff, 0xff, 0xff]
    );
    assert_eq!(root_key_id(), Identifier([0; 17]));
}

#[test]
fn block_fees_key_id() {
    let k = derive_key_id(1, 2, 0, 0, 0);
    assert_eq!(fees(Some(k)).key_id(), Some(k));
    assert_eq!(fees(None).key_id(), None);
}

#[test]
fn coinbase_requests() {
    let r = create_coinbase("http://127.0.0.1:3415", &fees(None));
    assert_eq!(r.url, "http://127.0.0.1:3415/v1/wallet/foreign/build_coinbase");
    assert_eq!(r.block_fees, fees(None));
    let r = create_foundation("http://w", &fees(None));
    assert_eq!(r.url, "http://w/v1/wallet/foreign/build_foundation");
}

#[test]
fn coinbase_without_wallet_is_burnt() {
    match get_coinbase(&None, fees(None)) {
        CoinbasePlan::Burn { block_fees, key_id } => {
            assert_eq!(block_fees, fees(None));
            assert_eq!(key_id, derive_key_id(1, 1, 0, 0, 0));
        }
        other => panic!("unexpected plan {:?}", other),
    }
    assert_eq!(get_coinbase(&None, fees(None)), burn_reward(fees(None)));
    match get_coinbase(&Some("http://w".to_string()), fees(None)) {
        CoinbasePlan::Wallet(req) => assert_eq!(req.url, "http://w/v1/wallet/foreign/build_coinbase"),
        other => panic!("unexpected plan {:?}", other),
    }
}

#[test]
fn wallet_answer() {
    let k = derive_key_id(1, 7, 0, 0, 0);
    let out = Output { features: OutputFeatures::Coinbase, commit: Commitment([1; 33]), proof: vec![9] };
    let kern = TxKernel { features: KernelFeatures::Coinbase, fee: 0, lock_height: 0, excess: Commitment([2; 33]), excess_sig: [3; 64] };
    let cb = CbData { output: out.clone(), kernel: kern, key_id: Some(k) };
    let (o, kk, f) = coinbase_answer(fees(None), Ok(cb)).unwrap();
    assert_eq!(o, out);
    assert_eq!(kk, kern);
    assert_eq!(f, BlockFees { fees: 10, height: 5, key_id: Some(k) });
    assert_eq!(
        coinbase_answer(fees(None), Err("refused".to_string())),
        Err(MineError::WalletComm("refused".to_string()))
    );
}

#[test]
fn block_time_is_after_head() {
    assert_eq!(next_block_time(2000, 1000), 2000);
    assert_eq!(next_block_time(1000, 1000), 1001);
    assert_eq!(next_block_time(500, 1000), 1001);
}

#[test]
fn difficulty_era() {
    assert!(!uses_era1(8, 10));
    assert!(uses_era1(9, 10));
    assert!(uses_era1(20, 10));
    assert!(uses_era1(0, 0));
    assert!(!uses_era1(0, 2));
}

#[test]
fn fees_and_height_of_candidate() {
    assert_eq!(block_fees_for(&vec![1, 2, 3], 9, None), Ok(BlockFees { fees: 6, height: 10, key_id: None }));
    assert_eq!(block_fees_for(&vec![], 0, None), Ok(BlockFees { fees: 0, height: 1, key_id: None }));
    assert_eq!(block_fees_for(&vec![u64::MAX, 1], 9, None), Err(MineError::FeeOverflow));
    assert_eq!(block_fees_for(&vec![1], u64::MAX, None), Err(MineError::HeightOverflow));
}

#[test]
fn retry_after_failures() {
    let k = derive_key_id(1, 1, 0, 0, 0);
    let dup = MineError::Chain(ChainErrorKind::DuplicateCommitment(Commitment([0; 33])));
    assert_eq!(retry_plan(&dup, Some(k)), RetryPlan { key_id: None, wait_ms: 100 });
    assert_eq!(retry_plan(&dup, None), RetryPlan { key_id: None, wait_ms: 100 });
    assert_eq!(retry_plan(&MineError::Other("y".to_string()), None), RetryPlan { key_id: None, wait_ms: 0 });
    assert_eq!(retry_plan(&MineError::WalletComm("x".to_string()), Some(k)), RetryPlan { key_id: Some(k), wait_ms: 5100 });
    assert_eq!(retry_plan(&MineError::WalletComm("x".to_string()), None), RetryPlan { key_id: None, wait_ms: 5000 });
    assert_eq!(retry_plan(&MineError::Other("y".to_string()), Some(k)), RetryPlan { key_id: Some(k), wait_ms: 100 });
}

#[test]
fn roots_errors() {
    let c = Commitment([4; 33]);
    assert_eq!(
        roots_error(ChainErrorKind::DuplicateCommitment(c), "d".to_string()),
        MineError::Chain(ChainErrorKind::DuplicateCommitment(c))
    );
    assert_eq!(
        roots_error(ChainErrorKind::ImmatureCoinbase, "immature".to_string()),
        MineError::Chain(ChainErrorKind::Other("immature".to_string()))
    );
}

#[test]
fn finished_header_is_later_than_head() {
    let head = BlockHeader {
        height: 4,
        timestamp: 4_000_000_000_000,
        prev_hash: epic_chain_core::types::Hash([1; 32]),
        output_root: epic_chain_core::types::Hash([2; 32]),
        kernel_root: epic_chain_core::types::Hash([3; 32]),
        output_mmr_size: 1,
        kernel_mmr_size: 1,
        total_difficulty: Difficulty { cuckatoo: 1, progpow: 2, randomx: 3 },
        pow: ProofOfWork { proof: Proof::RandomXProof { hash: [0; 32] }, secondary_scaling: 1, nonce: 0, seed: [0; 32] },
        policy: 0,
        bottles: Policy { cuckatoo: 0, progpow: 0, randomx: 0 },
    };
    let mut next = head.clone();
    next.height = 5;
    let seed = epic_chain_core::types::Hash([8; 32]);
    finish_header(&mut next, &head, &seed, 7, 2);
    assert_eq!(next.timestamp, head.timestamp + 1);
    assert_eq!(next.pow.seed, [8; 32]);
    assert_eq!(next.pow.secondary_scaling, 7);
    assert_eq!(next.policy, 2);
    assert_eq!(next.height, 5);
    let mut old = head.clone();
    old.timestamp = 0;
    let mut n2 = head.clone();
    finish_header(&mut n2, &old, &seed, 7, 2);
    assert!(n2.timestamp > 1_600_000_000);
    fill_header(&mut n2, &seed, 99, 1, 123, 4);
    assert_eq!((n2.pow.nonce, n2.pow.secondary_scaling, n2.timestamp, n2.policy), (99, 1, 123, 4));
}

#[test]
fn difficulty_and_policy_projections() {
    let a = Difficulty { cuckatoo: 10, progpow: 3, randomx: 0 };
    let b = Difficulty { cuckatoo: 4, progpow: 5, randomx: 0 };
    assert_eq!(a.minus(&b), Difficulty { cuckatoo: 6, progpow: 0, randomx: 0 });
    assert_eq!(a.to_num(PoWType::ProgPow), 3);
    assert_eq!(Difficulty::zero(), Difficulty { cuckatoo: 0, progpow: 0, randomx: 0 });
    let p = Policy { cuckatoo: 1, progpow: 2, randomx: 3 };
    assert_eq!(p.get(PoWType::RandomX), 3);
    assert_eq!(Proof::ProgPowProof { mix: [0; 32] }.pow_type(), PoWType::ProgPow);
    assert!(Proof::CuckooProof { edge_bits: 29, nonces: vec![] }.is_secondary());
    assert!(!Proof::CuckooProof { edge_bits: 31, nonces: vec![] }.is_secondary());
}
