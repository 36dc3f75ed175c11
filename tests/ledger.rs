use purple_core::block::{meets_difficulty, Block, Checkpoint, Payload};
use purple_core::chain::{AppendOutcome, Chain, ChainConfig, ChainErr, ChainKind};
use purple_core::hash::{hash_slice, H256};
use purple_core::pow_state::{ChainEvent, Consensus, PowChainState};
use purple_core::state::{apply_transaction, apply_transactions, encode_state, find_account, state_root, Account, Transaction};

fn config() -> ChainConfig {
    ChainConfig {
        initial_target: 1,
        retarget_window: 0,
        block_interval: 10,
        max_future_drift: 100,
        orphan_expiry: 2,
        checkpoint_maturity: 2,
    }
}

fn mine(height: u64, parent: H256, ts: u64, payload: Payload) -> Block {
    let mut nonce = 0;
    loop {
        let b = Block::new(height, parent, ts, 1, nonce, payload.clone());
        if meets_difficulty(b.hash, 1) {
            return b;
        }
        nonce += 1;
    }
}

fn accounts() -> Vec<Account> {
    vec![Account { address: 1, balance: 100, nonce: 0 }]
}

fn tx(from: u64, to: u64, amount: u64, nonce: u64) -> Transaction {
    Transaction { from, to, amount, nonce }
}

fn node() -> Consensus {
    let sg = Block::new(0, H256::zero(), 0, 0, 0, Payload::Transactions(Vec::new()));
    let state = Chain::new(ChainKind::State, config(), sg, accounts());
    let root = state.state_root();
    let eg = Block::new(0, H256::zero(), 0, 0, 0, Payload::StateCommit { state_height: 0, state_root: root });
    let easy = Chain::new(ChainKind::Easy, config(), eg.clone(), Vec::new());
    let cp = Checkpoint { easy_height: 0, easy_hash: eg.hash, state_root: root };
    let hg = Block::new(0, H256::zero(), 0, 0, 0, Payload::Anchor(cp));
    let hard = Chain::new(ChainKind::Hard, config(), hg, Vec::new());
    Consensus::new(state, easy, hard)
}

#[test]
fn double_spend_rejects_whole_block() {
    let mut n = node();
    let before = n.state.state_root();
    let g = n.state.tip_hash();
    let txs = vec![tx(1, 2, 60, 1), tx(1, 3, 60, 2)];
    let b = mine(1, g, 10, Payload::Transactions(txs));
    assert_eq!(n.submit_block(ChainKind::State, b, 100), Err(ChainErr::Malformed));
    assert_eq!(n.state.state_root(), before);
    assert_eq!(n.state.height(), 0);
    assert_eq!(n.state.balance_of(1), Some(100));
    assert_eq!(n.state.balance_of(2), None);
}

#[test]
fn valid_batch_moves_balances() {
    let mut n = node();
    let g = n.state.tip_hash();
    let txs = vec![tx(1, 2, 60, 1), tx(2, 3, 10, 1), tx(1, 1, 5, 2)];
    let b = mine(1, g, 10, Payload::Transactions(txs));
    assert_eq!(n.submit_block(ChainKind::State, b, 100), Ok(AppendOutcome::Reorg { depth: 0 }));
    assert_eq!(n.state.balance_of(1), Some(40));
    assert_eq!(n.state.balance_of(2), Some(50));
    assert_eq!(n.state.balance_of(3), Some(10));
    assert_eq!(n.pow_chain_state().state_root, n.state.state_root());
}

#[test]
fn state_root_is_deterministic() {
    let prior = accounts();
    let txs = vec![tx(1, 2, 30, 1), tx(1, 3, 20, 2)];
    let a = apply_transactions(&prior, &txs).unwrap();
    let b = apply_transactions(&prior.clone(), &txs.clone()).unwrap();
    assert_eq!(a, b);
    assert_eq!(state_root(&a), state_root(&b));
    assert_ne!(state_root(&a), state_root(&prior));
    assert_eq!(a, vec![
        Account { address: 1, balance: 50, nonce: 2 },
        Account { address: 2, balance: 30, nonce: 0 },
        Account { address: 3, balance: 20, nonce: 0 },
    ]);
}

#[test]
fn transaction_checks() {
    let mut s = accounts();
    // Unknown sender, wrong nonce, too large an amount.
    assert!(!apply_transaction(&mut s, tx(9, 1, 1, 1)));
    assert!(!apply_transaction(&mut s, tx(1, 2, 1, 2)));
    assert!(!apply_transaction(&mut s, tx(1, 2, 101, 1)));
    assert_eq!(s, accounts());
    // A receiver whose balance would overflow.
    let mut t = vec![Account { address: 1, balance: 100, nonce: 0 }, Account { address: 2, balance: u64::MAX, nonce: 0 }];
    assert!(!apply_transaction(&mut t, tx(1, 2, 1, 1)));
    assert!(apply_transaction(&mut s, tx(1, 2, 100, 1)));
    assert_eq!(find_account(&s, 2), Some(1));
    assert_eq!(s[0].balance, 0);
}

#[test]
fn state_encoding_is_big_endian() {
    let s = vec![Account { address: 1, balance: 2, nonce: 0x0102 }];
    let bytes = encode_state(&s);
    assert_eq!(bytes, vec![0, 0, 0, 0, 0, 0, 0, 1, 0, 0, 0, 0, 0, 0, 0, 2, 0, 0, 0, 0, 0, 0, 1, 2]);
}

#[test]
fn blake3_of_empty_input() {
    let h = hash_slice(&Vec::new());
    assert_eq!(h.hi, 0xaf1349b9f5f9a1a6a0404dea36dcc949);
    assert_eq!(h.lo, 0x9bcb25c9adc112b7cc9a93cae41f3262);
    assert_ne!(hash_slice(&vec![1u8]), h);
}

#[test]
fn checkpoints_across_chains() {
    let mut n = node();
    let sg = n.state.tip_hash();
    let s1 = mine(1, sg, 10, Payload::Transactions(vec![tx(1, 2, 10, 1)]));
    n.submit_block(ChainKind::State, s1, 100).unwrap();
    let root1 = n.state.state_root();
    // An easy block commits to the state root at height 1.
    let eg = n.easy.tip_hash();
    let e1 = mine(1, eg, 10, Payload::StateCommit { state_height: 1, state_root: root1 });
    assert_eq!(n.submit_block(ChainKind::Easy, e1.clone(), 100), Ok(AppendOutcome::Reorg { depth: 0 }));
    let hg = n.hard.tip_hash();
    let cp = Checkpoint { easy_height: 1, easy_hash: e1.hash, state_root: root1 };
    // Depth 0 below the easy tip: not mature.
    let h1 = mine(1, hg, 10, Payload::Anchor(cp));
    assert_eq!(n.submit_block(ChainKind::Hard, h1.clone(), 100), Err(ChainErr::CheckpointNotMature));
    // Too high a checkpoint is never mature.
    let far = Checkpoint { easy_height: 9, easy_hash: e1.hash, state_root: root1 };
    let hf = mine(1, hg, 10, Payload::Anchor(far));
    assert_eq!(n.submit_block(ChainKind::Hard, hf, 100), Err(ChainErr::CheckpointNotMature));
    let e2 = mine(2, e1.hash, 20, Payload::StateCommit { state_height: 1, state_root: root1 });
    let e3 = mine(3, e2.hash, 30, Payload::StateCommit { state_height: 1, state_root: root1 });
    n.submit_block(ChainKind::Easy, e2, 100).unwrap();
    n.submit_block(ChainKind::Easy, e3, 100).unwrap();
    // Now two blocks deep: a wrong hash is a mismatch, the right one passes.
    let bad = Checkpoint { easy_height: 1, easy_hash: H256 { hi: 3, lo: 3 }, state_root: root1 };
    let hb = mine(1, hg, 10, Payload::Anchor(bad));
    assert_eq!(n.submit_block(ChainKind::Hard, hb, 100), Err(ChainErr::CheckpointMismatch));
    assert_eq!(n.submit_block(ChainKind::Hard, h1.clone(), 100), Ok(AppendOutcome::Reorg { depth: 0 }));
    let pow = n.pow_chain_state();
    assert_eq!(pow, PowChainState {
        height: 1,
        total_difficulty: 1,
        current_target: 1,
        latest_checkpoint: Some(cp),
        easy_height: 3,
        state_root: root1,
    });
    assert_eq!(n.current_tip(ChainKind::Hard), (h1.hash, 1, 1));
    assert_eq!(n.current_tip(ChainKind::Easy).1, 3);
    assert_eq!(n.current_tip(ChainKind::State).1, 1);
}

#[test]
fn failed_submit_keeps_snapshot() {
    let mut n = node();
    let before = n.pow_chain_state();
    let hg = n.hard.tip_hash();
    let b = mine(1, hg, 10, Payload::Transactions(Vec::new()));
    assert_eq!(n.submit_block(ChainKind::Hard, b, 100), Err(ChainErr::Malformed));
    assert_eq!(n.pow_chain_state(), before);
    assert_eq!(PowChainState::recompute(&n.hard, &n.easy, &n.state), before);
}

#[test]
fn submission_events() {
    let mut n = node();
    let sg = n.state.tip_hash();
    let s1 = mine(1, sg, 10, Payload::Transactions(Vec::new()));
    let (r, evs) = n.submit_block_with_events(ChainKind::State, s1.clone(), 100);
    assert_eq!(r, Ok(AppendOutcome::Reorg { depth: 0 }));
    assert_eq!(evs, vec![ChainEvent::TipChanged { kind: ChainKind::State, hash: s1.hash, height: 1 }]);
    let s2 = mine(1, sg, 11, Payload::Transactions(vec![tx(1, 2, 1, 1)]));
    let (r, evs) = n.submit_block_with_events(ChainKind::State, s2.clone(), 100);
    if r == Ok(AppendOutcome::Reorg { depth: 1 }) {
        assert_eq!(evs, vec![
            ChainEvent::TipChanged { kind: ChainKind::State, hash: s2.hash, height: 1 },
            ChainEvent::Reorg { kind: ChainKind::State, depth: 1 },
        ]);
    } else {
        assert_eq!(r, Ok(AppendOutcome::SideBranch));
        assert!(evs.is_empty());
    }
    let (r, evs) = n.submit_block_with_events(ChainKind::State, s2, 100);
    assert_eq!(r, Err(ChainErr::AlreadyKnown));
    assert!(evs.is_empty());
}

#[test]
fn hard_tip_announces_checkpoint() {
    let mut cfg = config();
    cfg.checkpoint_maturity = 0;
    let sg = Block::new(0, H256::zero(), 0, 0, 0, Payload::Transactions(Vec::new()));
    let state = Chain::new(ChainKind::State, config(), sg, accounts());
    let root = state.state_root();
    let eg = Block::new(0, H256::zero(), 0, 0, 0, Payload::StateCommit { state_height: 0, state_root: root });
    let easy = Chain::new(ChainKind::Easy, config(), eg.clone(), Vec::new());
    let cp = Checkpoint { easy_height: 0, easy_hash: eg.hash, state_root: root };
    let hg = Block::new(0, H256::zero(), 0, 0, 0, Payload::Anchor(cp));
    let hard = Chain::new(ChainKind::Hard, cfg, hg, Vec::new());
    let mut n = Consensus::new(state, easy, hard);
    let h1 = mine(1, n.hard.tip_hash(), 10, Payload::Anchor(cp));
    let (r, evs) = n.submit_block_with_events(ChainKind::Hard, h1.clone(), 100);
    assert_eq!(r, Ok(AppendOutcome::Reorg { depth: 0 }));
    assert_eq!(evs, vec![
        ChainEvent::TipChanged { kind: ChainKind::Hard, hash: h1.hash, height: 1 },
        ChainEvent::CheckpointFinalized(cp),
    ]);
}
