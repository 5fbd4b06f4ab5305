use std::sync::Arc;

use epic_chain_core::iter::{BottleIter, DifficultyIter, DifficultyIterAll};
use epic_chain_core::records::{
    block_from_bytes, block_to_bytes, header_from_bytes, header_to_bytes, tip_from_bytes, tip_to_bytes,
};
use epic_chain_core::store::{ChainStore, Error, Lookup};
use epic_chain_core::types::{
    Block, BlockHeader, BlockSums, Commitment, Difficulty, HeaderInfo, Input, KernelFeatures, Output,
    OutputFeatures, Policy, PoWType, Proof, ProofOfWork, Tip, TxKernel,
};

fn hash_of(b: u8) -> epic_chain_core::types::Hash {
    epic_chain_core::types::Hash([b; 32])
}

fn commit(b: u8) -> Commitment {
    Commitment([b; 33])
}

fn proof_for(algo: PoWType) -> Proof {
    match algo {
        PoWType::Cuckatoo => Proof::CuckooProof { edge_bits: 31, nonces: vec![1, 2, 3, 4] },
        PoWType::ProgPow => Proof::ProgPowProof { mix: [7; 32] },
        PoWType::RandomX => Proof::RandomXProof { hash: [9; 32] },
    }
}

fn header(height: u64, prev: epic_chain_core::types::Hash, ts: i64, algo: PoWType, td: (u64, u64, u64), policy: u8, bottles: Policy) -> BlockHeader {
    BlockHeader {
        height,
        timestamp: ts,
        prev_hash: prev,
        output_root: hash_of(1),
        kernel_root: hash_of(2),
        output_mmr_size: height * 2,
        kernel_mmr_size: height,
        total_difficulty: Difficulty { cuckatoo: td.0, progpow: td.1, randomx: td.2 },
        pow: ProofOfWork { proof: proof_for(algo), secondary_scaling: 3, nonce: 42, seed: [5; 32] },
        policy,
        bottles,
    }
}

fn no_bottles() -> Policy {
    Policy { cuckatoo: 0, progpow: 0, randomx: 0 }
}

fn tip_of(h: &BlockHeader) -> Tip {
    Tip::from_header(h)
}

fn block_with_inputs(h: BlockHeader, inputs: Vec<Input>) -> Block {
    Block {
        header: h,
        inputs,
        outputs: vec![Output { features: OutputFeatures::Coinbase, commit: commit(50), proof: vec![1, 2, 3] }],
        kernels: vec![TxKernel {
            features: KernelFeatures::Coinbase,
            fee: 0,
            lock_height: 0,
            excess: commit(60),
            excess_sig: [4; 64],
        }],
    }
}

#[test]
fn pointer_round_trip() {
    let mut store = ChainStore::new();
    let t = Tip {
        last_block_h: hash_of(0x11),
        prev_block_h: hash_of(0x10),
        height: 1,
        total_difficulty: Difficulty { cuckatoo: 5, progpow: 0, randomx: 0 },
    };
    let mut b = store.batch();
    b.save_head(&t).unwrap();
    b.commit(&mut store).unwrap();
    assert_eq!(store.head().unwrap(), t);
    assert_eq!(store.header_head().unwrap(), t);
    assert_eq!(store.head().unwrap().last_block_h, hash_of(0x11));
}

#[test]
fn missing_pointers_are_not_found() {
    let store = ChainStore::new();
    assert_eq!(store.head(), Err(Error::NotFound(Lookup::Head)));
    assert_eq!(store.tail(), Err(Error::NotFound(Lookup::Tail)));
    assert_eq!(store.header_head(), Err(Error::NotFound(Lookup::HeaderHead)));
    assert_eq!(store.get_sync_head(), Err(Error::NotFound(Lookup::SyncHead)));
    assert_eq!(store.head_header(), Err(Error::NotFound(Lookup::Head)));
}

#[test]
fn abandoned_batch_leaves_store_unchanged() {
    let mut store = ChainStore::new();
    let t1 = tip_of(&header(1, hash_of(0), 100, PoWType::Cuckatoo, (1, 0, 0), 0, no_bottles()));
    let mut b = store.batch();
    b.save_head(&t1).unwrap();
    b.commit(&mut store).unwrap();
    let t2 = tip_of(&header(2, hash_of(1), 200, PoWType::Cuckatoo, (2, 0, 0), 0, no_bottles()));
    {
        let mut b2 = store.batch();
        b2.save_head(&t2).unwrap();
        assert_eq!(b2.head().unwrap(), t2);
        assert_eq!(store.head().unwrap(), t1);
    }
    assert_eq!(store.head().unwrap(), t1);
    assert_eq!(store.header_head().unwrap(), t1);
}

#[test]
fn body_head_and_tail_and_sync_head() {
    let mut store = ChainStore::new();
    let t1 = tip_of(&header(1, hash_of(0), 100, PoWType::Cuckatoo, (1, 0, 0), 0, no_bottles()));
    let t2 = tip_of(&header(2, hash_of(1), 200, PoWType::ProgPow, (1, 1, 0), 0, no_bottles()));
    let mut b = store.batch();
    b.save_head(&t1).unwrap();
    b.save_body_head(&t2).unwrap();
    b.save_body_tail(&t1).unwrap();
    assert_eq!(b.head().unwrap(), t2);
    assert_eq!(b.header_head().unwrap(), t1);
    assert_eq!(b.tail().unwrap(), t1);
    b.reset_sync_head().unwrap();
    assert_eq!(b.get_sync_head().unwrap(), t1);
    b.reset_header_head().unwrap();
    assert_eq!(b.header_head().unwrap(), t2);
    b.save_header_head(&t1).unwrap();
    b.save_sync_head(&t2).unwrap();
    b.commit(&mut store).unwrap();
    assert_eq!(store.header_head().unwrap(), t1);
    assert_eq!(store.get_sync_head().unwrap(), t2);
}

#[test]
fn reset_without_pointer_fails() {
    let store = ChainStore::new();
    let mut b = store.batch();
    assert_eq!(b.reset_sync_head(), Err(Error::NotFound(Lookup::HeaderHead)));
    assert_eq!(b.reset_header_head(), Err(Error::NotFound(Lookup::Head)));
}

#[test]
fn header_body_separation() {
    let mut store = ChainStore::new();
    let h = header(1, hash_of(0), 1000, PoWType::Cuckatoo, (10, 0, 0), 0, no_bottles());
    let hash = h.hash();
    let mut b = store.batch();
    b.save_block_header(&h).unwrap();
    b.commit(&mut store).unwrap();
    assert!(store.head_header().is_err());
    assert_eq!(store.get_block_header(&hash).unwrap(), h);
    let mut b = store.batch();
    b.save_head(&tip_of(&h)).unwrap();
    b.commit(&mut store).unwrap();
    assert_eq!(store.head_header().unwrap(), h);
    assert_eq!(store.get_block_header(&hash).unwrap().hash(), hash);
}

#[test]
fn head_header_missing_header() {
    let mut store = ChainStore::new();
    let h = header(1, hash_of(0), 1000, PoWType::Cuckatoo, (10, 0, 0), 0, no_bottles());
    let mut b = store.batch();
    b.save_head(&tip_of(&h)).unwrap();
    b.commit(&mut store).unwrap();
    assert_eq!(store.head_header(), Err(Error::NotFound(Lookup::BlockHeader(h.hash()))));
}

#[test]
fn previous_header() {
    let mut store = ChainStore::new();
    let h0 = header(0, hash_of(0), 1000, PoWType::Cuckatoo, (10, 0, 0), 0, no_bottles());
    let h1 = header(1, h0.hash(), 1060, PoWType::ProgPow, (10, 4, 0), 0, no_bottles());
    let mut b = store.batch();
    b.save_block_header(&h0).unwrap();
    b.save_block_header(&h1).unwrap();
    assert_eq!(b.get_previous_header(&h1).unwrap(), h0);
    b.commit(&mut store).unwrap();
    assert_eq!(store.get_previous_header(&h1).unwrap(), h0);
    assert!(store.get_previous_header(&h0).is_err());
}

#[test]
fn input_bitmap_rebuild() {
    let mut store = ChainStore::new();
    let h = header(1, hash_of(0), 1000, PoWType::Cuckatoo, (10, 0, 0), 0, no_bottles());
    let mut b = store.batch();
    b.save_output_pos(&commit(1), 5).unwrap();
    b.save_output_pos(&commit(2), 9).unwrap();
    let inputs = vec![
        Input { features: OutputFeatures::Plain, commit: commit(1) },
        Input { features: OutputFeatures::Plain, commit: commit(2) },
        Input { features: OutputFeatures::Plain, commit: commit(3) },
    ];
    let block = block_with_inputs(h.clone(), inputs);
    b.save_block_header(&h).unwrap();
    b.save_block(&block).unwrap();
    let bm = b.get_block_input_bitmap(&block.hash()).unwrap();
    assert_eq!(bm.to_vec(), vec![5, 9]);
    b.commit(&mut store).unwrap();
    let mut b = store.batch();
    let bm = b.get_block_input_bitmap(&block.hash()).unwrap();
    assert_eq!(bm.to_vec(), vec![5, 9]);
}

#[test]
fn input_bitmap_of_missing_block_fails() {
    let store = ChainStore::new();
    let mut b = store.batch();
    let r = b.get_block_input_bitmap(&hash_of(3));
    assert!(matches!(r, Err(Error::NotFound(Lookup::Block(_)))));
}

#[test]
fn delete_block_keeps_header() {
    let mut store = ChainStore::new();
    let h = header(1, hash_of(0), 1000, PoWType::Cuckatoo, (10, 0, 0), 0, no_bottles());
    let block = block_with_inputs(h.clone(), vec![]);
    let hash = block.hash();
    let mut b = store.batch();
    b.save_block_header(&h).unwrap();
    b.save_block(&block).unwrap();
    b.save_block_sums(&hash, &BlockSums { utxo_sum: commit(7), kernel_sum: commit(8) }).unwrap();
    assert_eq!(b.block_exists(&hash), Ok(true));
    b.delete_block(&hash).unwrap();
    assert_eq!(b.block_exists(&hash), Ok(false));
    assert_eq!(b.get_block_header(&hash).unwrap(), h);
    assert_eq!(b.get_block_sums(&hash), Err(Error::NotFound(Lookup::BlockSums(hash))));
    assert!(matches!(b.get_block_input_bitmap(&hash), Err(Error::NotFound(Lookup::Block(_)))));
    b.commit(&mut store).unwrap();
    assert_eq!(store.block_exists(&hash), Ok(false));
}

#[test]
fn block_and_sums_round_trip() {
    let mut store = ChainStore::new();
    let h = header(3, hash_of(9), 4000, PoWType::RandomX, (1, 2, 3), 2, Policy { cuckatoo: 1, progpow: 2, randomx: 3 });
    let block = block_with_inputs(h.clone(), vec![Input { features: OutputFeatures::Coinbase, commit: commit(4) }]);
    let hash = block.hash();
    let sums = BlockSums { utxo_sum: commit(7), kernel_sum: commit(8) };
    let mut b = store.batch();
    b.save_block(&block).unwrap();
    b.save_block_sums(&hash, &sums).unwrap();
    b.commit(&mut store).unwrap();
    assert_eq!(store.get_block(&hash).unwrap(), block);
    assert_eq!(store.get_block_sums(&hash).unwrap(), sums);
    assert_eq!(store.get_block(&hash_of(1)), Err(Error::NotFound(Lookup::Block(hash_of(1)))));
}

#[test]
fn output_positions_clear() {
    let mut store = ChainStore::new();
    let mut b = store.batch();
    b.save_output_pos(&commit(1), 5).unwrap();
    b.save_output_pos(&commit(2), 9).unwrap();
    assert_eq!(b.get_output_pos(&commit(1)), Ok(5));
    b.save_output_pos(&commit(1), 6).unwrap();
    assert_eq!(b.get_output_pos(&commit(1)), Ok(6));
    b.commit(&mut store).unwrap();
    assert_eq!(store.get_output_pos(&commit(2)), Ok(9));
    let mut b = store.batch();
    b.clear_output_pos().unwrap();
    assert_eq!(b.get_output_pos(&commit(1)), Err(Error::NotFound(Lookup::OutputPos(commit(1)))));
    assert_eq!(b.get_output_pos(&commit(2)), Err(Error::NotFound(Lookup::OutputPos(commit(2)))));
    b.commit(&mut store).unwrap();
    assert!(store.get_output_pos(&commit(2)).is_err());
}

#[test]
fn child_batch_merges_on_commit() {
    let mut store = ChainStore::new();
    let t = tip_of(&header(4, hash_of(3), 100, PoWType::Cuckatoo, (1, 0, 0), 0, no_bottles()));
    let mut parent = store.batch();
    let mut child = parent.child();
    child.save_body_tail(&t).unwrap();
    assert!(parent.tail().is_err());
    parent.commit_child(child).unwrap();
    assert_eq!(parent.tail().unwrap(), t);
    {
        let mut dropped = parent.child();
        dropped.save_head(&t).unwrap();
    }
    assert!(parent.head().is_err());
    parent.commit(&mut store).unwrap();
    assert_eq!(store.tail().unwrap(), t);
    assert!(store.head().is_err());
}

#[test]
fn blocks_iter_lists_each_block() {
    let store = ChainStore::new();
    let h1 = header(1, hash_of(0), 1000, PoWType::Cuckatoo, (10, 0, 0), 0, no_bottles());
    let h2 = header(2, h1.hash(), 1060, PoWType::ProgPow, (10, 5, 0), 0, no_bottles());
    let b1 = block_with_inputs(h1, vec![]);
    let b2 = block_with_inputs(h2, vec![]);
    let mut b = store.batch();
    b.save_block(&b1).unwrap();
    b.save_block(&b2).unwrap();
    b.save_block(&b1).unwrap();
    let all = b.blocks_iter();
    assert_eq!(all.len(), 2);
    assert!(all.iter().any(|(_, blk)| *blk == b1));
    assert!(all.iter().any(|(_, blk)| *blk == b2));
}

#[test]
fn codec_round_trips_and_rejects() {
    let h = header(7, hash_of(6), -5, PoWType::Cuckatoo, (u64::MAX, 0, 1), 1, Policy { cuckatoo: u32::MAX, progpow: 0, randomx: 7 });
    assert_eq!(header_from_bytes(&header_to_bytes(&h)), Some(h.clone()));
    let t = tip_of(&h);
    assert_eq!(tip_from_bytes(&tip_to_bytes(&t)), Some(t));
    let block = block_with_inputs(h, vec![Input { features: OutputFeatures::Plain, commit: commit(3) }]);
    let bytes = block_to_bytes(&block);
    assert_eq!(block_from_bytes(&bytes), Some(block));
    assert_eq!(block_from_bytes(&bytes[..bytes.len() - 1].to_vec()), None);
    let mut longer = bytes.clone();
    longer.push(0);
    assert_eq!(block_from_bytes(&longer), None);
    assert_eq!(header_from_bytes(&vec![1, 2, 3]), None);
    assert_eq!(tip_from_bytes(&vec![0; 95]), None);
}

#[test]
fn header_hash_depends_on_content() {
    let a = header(1, hash_of(0), 1000, PoWType::Cuckatoo, (10, 0, 0), 0, no_bottles());
    let mut b = a.clone();
    b.timestamp = 1001;
    assert_eq!(a.hash(), a.clone().hash());
    assert_ne!(a.hash(), b.hash());
    assert_ne!(a.hash(), epic_chain_core::types::Hash([0; 32]));
    let block = block_with_inputs(a.clone(), vec![]);
    assert_eq!(block.hash(), a.hash());
    let t = Tip::from_header(&a);
    assert_eq!(t.last_block_h, a.hash());
    assert_eq!(t.prev_block_h, hash_of(0));
    assert_eq!(t.height, 1);
}

fn save_chain(headers: &[BlockHeader]) -> ChainStore {
    let mut store = ChainStore::new();
    let mut b = store.batch();
    for h in headers {
        b.save_block_header(h).unwrap();
    }
    b.commit(&mut store).unwrap();
    store
}

#[test]
fn difficulty_iter_mixed_algos() {
    let h0 = header(0, hash_of(0), 1000, PoWType::Cuckatoo, (10, 0, 0), 0, no_bottles());
    let h1 = header(1, h0.hash(), 1060, PoWType::ProgPow, (10, 5, 0), 0, no_bottles());
    let h2 = header(2, h1.hash(), 1130, PoWType::ProgPow, (10, 11, 0), 0, no_bottles());
    let h3 = header(3, h2.hash(), 1200, PoWType::Cuckatoo, (17, 11, 0), 0, no_bottles());
    let store = Arc::new(save_chain(&[h0.clone(), h1, h2, h3.clone()]));
    let mut it = DifficultyIter::from(h3.hash(), store.clone());
    let first = it.next().unwrap();
    assert_eq!(
        first,
        HeaderInfo {
            timestamp: 1200,
            difficulty: Difficulty { cuckatoo: 7, progpow: 0, randomx: 0 },
            secondary_scaling: 3,
            is_secondary: false,
            timespan: 70,
        }
    );
    let second = it.next().unwrap();
    assert_eq!(
        second,
        HeaderInfo {
            timestamp: 1000,
            difficulty: Difficulty { cuckatoo: 10, progpow: 0, randomx: 0 },
            secondary_scaling: 3,
            is_secondary: false,
            timespan: 60,
        }
    );
    assert_eq!(it.next(), None);
    assert_eq!(it.next(), None);
}

#[test]
fn difficulty_iter_from_batch_sees_pending_headers() {
    let store = ChainStore::new();
    let h0 = header(0, hash_of(0), 1000, PoWType::RandomX, (0, 0, 4), 0, no_bottles());
    let h1 = header(1, h0.hash(), 990, PoWType::RandomX, (0, 0, 9), 0, no_bottles());
    let mut b = store.batch();
    b.save_block_header(&h0).unwrap();
    b.save_block_header(&h1).unwrap();
    let mut it = DifficultyIter::from_batch(h1.hash(), b);
    let s = it.next().unwrap();
    assert_eq!(s.timespan, 0);
    assert_eq!(s.difficulty, Difficulty { cuckatoo: 0, progpow: 0, randomx: 5 });
    assert_eq!(it.next().unwrap().timestamp, 1000);
    assert_eq!(it.next(), None);
}

#[test]
fn difficulty_iter_missing_start() {
    let store = Arc::new(ChainStore::new());
    let mut it = DifficultyIter::from(hash_of(1), store.clone());
    assert_eq!(it.next(), None);
    let mut all = DifficultyIterAll::from(hash_of(1), store);
    assert_eq!(all.next(), None);
}

#[test]
fn difficulty_iter_all_walks_every_ancestor() {
    let h0 = header(0, hash_of(0), 1000, PoWType::Cuckatoo, (10, 0, 0), 0, no_bottles());
    let h1 = header(1, h0.hash(), 1060, PoWType::ProgPow, (10, 5, 0), 0, no_bottles());
    let mut h2 = header(2, h1.hash(), 1100, PoWType::Cuckatoo, (12, 5, 0), 0, no_bottles());
    h2.pow.proof = Proof::CuckooProof { edge_bits: 29, nonces: vec![1] };
    let store = Arc::new(save_chain(&[h0, h1, h2.clone()]));
    let mut it = DifficultyIterAll::from(h2.hash(), store);
    let a = it.next().unwrap();
    assert_eq!(a.difficulty, Difficulty { cuckatoo: 2, progpow: 0, randomx: 0 });
    assert_eq!(a.timespan, 40);
    assert!(a.is_secondary);
    let b = it.next().unwrap();
    assert_eq!(b.difficulty, Difficulty { cuckatoo: 0, progpow: 5, randomx: 0 });
    assert_eq!(b.timespan, 60);
    let c = it.next().unwrap();
    assert_eq!(c.difficulty, Difficulty { cuckatoo: 10, progpow: 0, randomx: 0 });
    assert_eq!(c.timespan, 60);
    assert_eq!(it.next(), None);
}

#[test]
fn difficulty_iter_all_from_batch() {
    let store = ChainStore::new();
    let h0 = header(0, hash_of(0), 1000, PoWType::Cuckatoo, (10, 0, 0), 0, no_bottles());
    let mut b = store.batch();
    b.save_block_header(&h0).unwrap();
    let mut it = DifficultyIterAll::from_batch(h0.hash(), b);
    assert_eq!(it.next().unwrap().difficulty, Difficulty { cuckatoo: 10, progpow: 0, randomx: 0 });
    assert_eq!(it.next(), None);
}

#[test]
fn bottle_iter_window_cap() {
    let b0 = Policy { cuckatoo: 3, progpow: 2, randomx: 1 };
    let mut headers = Vec::new();
    let mut prev = hash_of(0);
    for i in 0..250u64 {
        let h = header(i, prev, 1000 + i as i64, PoWType::Cuckatoo, (i, 0, 0), 1, Policy { cuckatoo: 9, progpow: 9, randomx: 9 });
        prev = h.hash();
        headers.push(h);
    }
    let start = header(250, prev, 5000, PoWType::Cuckatoo, (250, 0, 0), 0, b0);
    headers.push(start.clone());
    let store = Arc::new(save_chain(&headers));
    let mut it = BottleIter::from(start.hash(), store, 0);
    assert_eq!(it.next(), Some(b0));
    assert_eq!(it.next(), None);
}

#[test]
fn bottle_iter_finds_policy_ancestor() {
    let p0 = Policy { cuckatoo: 1, progpow: 1, randomx: 1 };
    let p2 = Policy { cuckatoo: 2, progpow: 2, randomx: 2 };
    let h0 = header(0, hash_of(0), 1000, PoWType::Cuckatoo, (1, 0, 0), 0, p0);
    let h1 = header(1, h0.hash(), 1060, PoWType::Cuckatoo, (2, 0, 0), 1, p2);
    let h2 = header(2, h1.hash(), 1120, PoWType::Cuckatoo, (3, 0, 0), 1, p2);
    let store = ChainStore::new();
    let mut b = store.batch();
    b.save_block_header(&h0).unwrap();
    b.save_block_header(&h1).unwrap();
    b.save_block_header(&h2).unwrap();
    let mut it = BottleIter::from_batch(h2.hash(), &b, 0);
    assert_eq!(it.next(), Some(p0));
    assert_eq!(it.next(), Some(p0));
    assert_eq!(it.next(), None);
    let mut it = BottleIter::from_batch(h2.hash(), &b, 1);
    assert_eq!(it.next(), Some(p2));
    assert_eq!(it.next(), Some(p2));
    assert_eq!(it.next(), None);
    let mut it = BottleIter::from_batch(h2.hash(), &b, 7);
    assert_eq!(it.next(), None);
}
