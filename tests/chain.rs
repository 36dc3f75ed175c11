use purple_core::block::{meets_difficulty, Block, Checkpoint, Payload};
use purple_core::chain::{retarget_exec, AppendOutcome, Chain, ChainConfig, ChainErr, ChainKind};
use purple_core::hash::H256;

fn config() -> ChainConfig {
    ChainConfig {
        initial_target: 1,
        retarget_window: 0,
        block_interval: 10,
        max_future_drift: 100,
        orphan_expiry: 2,
        checkpoint_maturity: 2,
    }
}

fn commit() -> Payload {
    Payload::StateCommit { state_height: 0, state_root: H256::zero() }
}

fn genesis() -> Block {
    Block::new(0, H256::zero(), 0, 0, 0, commit())
}

/// A block whose hash meets its difficulty, searching nonces from `start`.
fn mine_from(height: u64, parent: H256, ts: u64, difficulty: u64, payload: Payload, start: u64) -> Block {
    let mut nonce = start;
    loop {
        let b = Block::new(height, parent, ts, difficulty, nonce, payload.clone());
        if meets_difficulty(b.hash, difficulty) {
            return b;
        }
        nonce += 1;
    }
}

fn mine(height: u64, parent: H256, ts: u64, difficulty: u64) -> Block {
    mine_from(height, parent, ts, difficulty, commit(), 0)
}

fn anchor_chain() -> Chain {
    Chain::new(ChainKind::Hard, config(), Block::new(0, H256::zero(), 0, 0, 0, Payload::Anchor(Checkpoint { easy_height: 0, easy_hash: H256::zero(), state_root: H256::zero() })), Vec::new())
}

/// A chain of the state-committing kind whose checkpoints all point at the
/// genesis root of a state chain without accounts.
fn new_chain() -> (Chain, Chain) {
    let dep = Chain::new(ChainKind::State, config(), Block::new(0, H256::zero(), 0, 0, 0, Payload::Transactions(Vec::new())), Vec::new());
    let root = dep.state_root();
    let g = Block::new(0, H256::zero(), 0, 0, 0, Payload::StateCommit { state_height: 0, state_root: root });
    (Chain::new(ChainKind::Easy, config(), g, Vec::new()), dep)
}

fn commit_to(dep: &Chain) -> Payload {
    Payload::StateCommit { state_height: 0, state_root: dep.state_root() }
}

fn hash_lt(a: H256, b: H256) -> bool {
    a.hi < b.hi || (a.hi == b.hi && a.lo < b.lo)
}

#[test]
fn scenario_fork_and_extend() {
    let (mut c, dep) = new_chain();
    let g = c.tip_hash();
    let a = mine_from(1, g, 10, 2, commit_to(&dep), 0);
    assert_eq!(c.append(a.clone(), 100, &dep), Ok(AppendOutcome::Reorg { depth: 0 }));
    assert_eq!(c.tip_hash(), a.hash);
    // B is strictly heavier than A: it takes the tip and abandons A.
    let b = mine_from(1, g, 11, 3, commit_to(&dep), 0);
    assert_eq!(c.append(b.clone(), 100, &dep), Ok(AppendOutcome::Reorg { depth: 1 }));
    assert_eq!(c.tip_hash(), b.hash);
    // C extends A: T_A + T_C = 4 outweighs T_B = 3.
    let cc = mine_from(2, a.hash, 20, 2, commit_to(&dep), 0);
    assert_eq!(c.append(cc.clone(), 100, &dep), Ok(AppendOutcome::Reorg { depth: 1 }));
    assert_eq!(c.tip_hash(), cc.hash);
    assert_eq!(c.height(), 2);
    assert_eq!(c.total_difficulty(), 4);
    assert_eq!(c.current_tip(), (cc.hash, 2, 4));
    assert_eq!(c.canonical_hash_at(0), Some(g));
    assert_eq!(c.canonical_hash_at(1), Some(a.hash));
    assert_eq!(c.canonical_hash_at(2), Some(cc.hash));
    assert_eq!(c.canonical_hash_at(3), None);
}

#[test]
fn tie_goes_to_smaller_hash() {
    let (mut c, dep) = new_chain();
    let g = c.tip_hash();
    let a = mine_from(1, g, 10, 2, commit_to(&dep), 0);
    assert_eq!(c.append(a.clone(), 100, &dep), Ok(AppendOutcome::Reorg { depth: 0 }));
    // Equal work: the block with the smaller hash holds the tip.
    let mut start = 0;
    loop {
        let b = mine_from(1, g, 12, 2, commit_to(&dep), start);
        start = b.nonce + 1;
        if b.hash == a.hash {
            continue;
        }
        let r = c.append(b.clone(), 100, &dep);
        if hash_lt(b.hash, a.hash) {
            assert_eq!(r, Ok(AppendOutcome::Reorg { depth: 1 }));
            assert_eq!(c.tip_hash(), b.hash);
            break;
        } else {
            assert_eq!(r, Ok(AppendOutcome::SideBranch));
            assert_eq!(c.tip_hash(), a.hash);
        }
    }
}

#[test]
fn lighter_branch_is_side_branch() {
    let (mut c, dep) = new_chain();
    let g = c.tip_hash();
    let a = mine_from(1, g, 10, 3, commit_to(&dep), 0);
    c.append(a.clone(), 100, &dep).unwrap();
    let b = mine_from(1, g, 10, 2, commit_to(&dep), 0);
    assert_eq!(c.append(b, 100, &dep), Ok(AppendOutcome::SideBranch));
    assert_eq!(c.tip_hash(), a.hash);
    assert_eq!(c.block_count(), 3);
}

#[test]
fn arrival_order_does_not_change_tip() {
    let (mut c1, dep) = new_chain();
    let (mut c2, _) = new_chain();
    let g = c1.tip_hash();
    let a = mine_from(1, g, 10, 2, commit_to(&dep), 0);
    let b = mine_from(1, g, 11, 3, commit_to(&dep), 0);
    let c = mine_from(2, a.hash, 20, 2, commit_to(&dep), 0);
    for blk in [a.clone(), b.clone(), c.clone()] {
        c1.append(blk, 100, &dep).unwrap();
    }
    // Reverse order: C waits as an orphan until A arrives.
    assert_eq!(c2.append(c.clone(), 100, &dep), Ok(AppendOutcome::Orphan));
    c2.append(b.clone(), 100, &dep).unwrap();
    c2.append(a.clone(), 100, &dep).unwrap();
    assert_eq!(c2.orphan_count(), 0);
    assert_eq!(c1.tip_hash(), c.hash);
    assert_eq!(c2.tip_hash(), c1.tip_hash());
    assert_eq!(c2.total_difficulty(), c1.total_difficulty());
}

#[test]
fn orphan_resolves_when_parent_arrives() {
    let (mut c, dep) = new_chain();
    let g = c.tip_hash();
    let a = mine_from(1, g, 10, 1, commit_to(&dep), 0);
    let b = mine_from(2, a.hash, 20, 1, commit_to(&dep), 0);
    let d = mine_from(3, b.hash, 30, 1, commit_to(&dep), 0);
    assert_eq!(c.append(d.clone(), 100, &dep), Ok(AppendOutcome::Orphan));
    assert_eq!(c.append(b.clone(), 100, &dep), Ok(AppendOutcome::Orphan));
    assert_eq!(c.orphan_count(), 2);
    assert!(!c.contains(b.hash));
    assert_eq!(c.append(a, 100, &dep), Ok(AppendOutcome::Reorg { depth: 0 }));
    assert_eq!(c.orphan_count(), 0);
    assert_eq!(c.tip_hash(), d.hash);
    assert_eq!(c.height(), 3);
}

#[test]
fn expired_orphan_is_refused_when_resubmitted() {
    let (mut c, dep) = new_chain();
    let g = c.tip_hash();
    let stray = mine_from(5, H256 { hi: 7, lo: 7 }, 50, 1, commit_to(&dep), 0);
    assert_eq!(c.append(stray.clone(), 100, &dep), Ok(AppendOutcome::Orphan));
    let mut parent = g;
    for h in 1..4u64 {
        let b = mine_from(h, parent, 10 * h, 1, commit_to(&dep), 0);
        parent = b.hash;
        c.append(b, 100, &dep).unwrap();
    }
    // Three tip changes exceed the bound of two: the orphan is gone.
    assert_eq!(c.orphan_count(), 0);
    assert_eq!(c.append(stray.clone(), 100, &dep), Err(ChainErr::OrphanExpired));
    assert_eq!(c.orphan_count(), 0);
}

#[test]
fn young_orphan_is_kept() {
    let (mut c, dep) = new_chain();
    let g = c.tip_hash();
    let stray = mine_from(5, H256 { hi: 7, lo: 7 }, 50, 1, commit_to(&dep), 0);
    c.append(stray, 100, &dep).unwrap();
    let b = mine_from(1, g, 10, 1, commit_to(&dep), 0);
    c.append(b, 100, &dep).unwrap();
    assert_eq!(c.orphan_count(), 1);
}

#[test]
fn duplicate_is_already_known() {
    let (mut c, dep) = new_chain();
    let a = mine_from(1, c.tip_hash(), 10, 1, commit_to(&dep), 0);
    c.append(a.clone(), 100, &dep).unwrap();
    assert_eq!(c.append(a, 100, &dep), Err(ChainErr::AlreadyKnown));
    let o = mine_from(4, H256 { hi: 1, lo: 2 }, 10, 1, commit_to(&dep), 0);
    c.append(o.clone(), 100, &dep).unwrap();
    assert_eq!(c.append(o, 100, &dep), Err(ChainErr::AlreadyKnown));
}

#[test]
fn tampered_hash_is_malformed() {
    let (mut c, dep) = new_chain();
    let mut a = mine_from(1, c.tip_hash(), 10, 1, commit_to(&dep), 0);
    a.timestamp = 11;
    assert!(!a.has_valid_hash());
    assert_eq!(c.append(a, 100, &dep), Err(ChainErr::Malformed));
    assert_eq!(c.block_count(), 1);
}

#[test]
fn wrong_height_is_malformed() {
    let (mut c, dep) = new_chain();
    let a = mine_from(2, c.tip_hash(), 10, 1, commit_to(&dep), 0);
    assert_eq!(c.append(a, 100, &dep), Err(ChainErr::Malformed));
}

#[test]
fn wrong_payload_kind_is_malformed() {
    let (mut c, dep) = new_chain();
    let a = mine_from(1, c.tip_hash(), 10, 1, Payload::Transactions(Vec::new()), 0);
    assert_eq!(c.append(a, 100, &dep), Err(ChainErr::Malformed));
}

#[test]
fn low_difficulty_is_insufficient_work() {
    let (dep, _) = new_chain();
    let mut cfg = config();
    cfg.initial_target = 3;
    let mut c = Chain::new(ChainKind::Easy, cfg, genesis(), Vec::new());
    let a = mine(1, c.tip_hash(), 10, 2);
    assert_eq!(c.append(a, 100, &dep), Err(ChainErr::InsufficientWork));
}

#[test]
fn unmet_hash_is_insufficient_work() {
    let (mut c, dep) = new_chain();
    let a = Block::new(1, c.tip_hash(), 10, u64::MAX, 0, commit_to(&dep));
    assert!(!meets_difficulty(a.hash, u64::MAX));
    assert_eq!(c.append(a, 100, &dep), Err(ChainErr::InsufficientWork));
}

#[test]
fn stale_timestamp_is_invalid() {
    let (mut c, dep) = new_chain();
    let a = mine_from(1, c.tip_hash(), 10, 1, commit_to(&dep), 0);
    c.append(a.clone(), 100, &dep).unwrap();
    let b = mine_from(2, a.hash, 10, 1, commit_to(&dep), 0);
    assert_eq!(c.append(b, 100, &dep), Err(ChainErr::TimestampInvalid));
}

#[test]
fn future_timestamp_is_invalid() {
    let (mut c, dep) = new_chain();
    let a = mine_from(1, c.tip_hash(), 201, 1, commit_to(&dep), 0);
    assert_eq!(c.append(a, 100, &dep), Err(ChainErr::TimestampInvalid));
    let b = mine_from(1, c.tip_hash(), 200, 1, commit_to(&dep), 0);
    assert!(c.append(b, 100, &dep).is_ok());
}

#[test]
fn easy_commit_to_wrong_root_is_mismatch() {
    let (mut c, dep) = new_chain();
    let p = Payload::StateCommit { state_height: 0, state_root: H256 { hi: 1, lo: 1 } };
    let a = mine_from(1, c.tip_hash(), 10, 1, p, 0);
    assert_eq!(c.append(a, 100, &dep), Err(ChainErr::CheckpointMismatch));
    let q = Payload::StateCommit { state_height: 1, state_root: dep.state_root() };
    let b = mine_from(1, c.tip_hash(), 10, 1, q, 0);
    assert_eq!(c.append(b, 100, &dep), Err(ChainErr::CheckpointMismatch));
}

#[test]
fn retarget_follows_window() {
    let mut cfg = config();
    cfg.initial_target = 4;
    cfg.retarget_window = 2;
    cfg.block_interval = 10;
    let (_, dep) = new_chain();
    let g = Block::new(0, H256::zero(), 0, 0, 0, commit_to(&dep));
    let mut c = Chain::new(ChainKind::Easy, cfg, g, Vec::new());
    let a = mine_from(1, c.tip_hash(), 10, 4, commit_to(&dep), 0);
    c.append(a.clone(), 1000, &dep).unwrap();
    assert_eq!(c.current_target(), 4);
    // Two blocks in 40 units where 20 were intended: the target halves.
    let b = mine_from(2, a.hash, 40, 4, commit_to(&dep), 0);
    c.append(b, 1000, &dep).unwrap();
    assert_eq!(c.current_target(), 2);
}

#[test]
fn retarget_formula_values() {
    assert_eq!(retarget_exec(100, 10, 10, 50), 200);
    assert_eq!(retarget_exec(100, 10, 10, 1), 400);
    assert_eq!(retarget_exec(100, 10, 10, 10_000), 25);
    assert_eq!(retarget_exec(100, 10, 10, 100), 100);
    assert_eq!(retarget_exec(0, 10, 10, 100), 1);
    assert_eq!(retarget_exec(u64::MAX, 10, 10, 1), u64::MAX);
}

#[test]
fn hard_chain_genesis_carries_checkpoint() {
    let c = anchor_chain();
    assert_eq!(c.height(), 0);
    assert_eq!(c.total_difficulty(), 0);
    assert_eq!(c.current_target(), 1);
}

#[test]
fn eviction_keeps_young_orphans() {
    let (mut c, dep) = new_chain();
    let x = mine_from(5, H256 { hi: 7, lo: 7 }, 50, 1, commit_to(&dep), 0);
    assert_eq!(c.append(x.clone(), 100, &dep), Ok(AppendOutcome::Orphan));
    let mut parent = c.tip_hash();
    let b1 = mine_from(1, parent, 10, 1, commit_to(&dep), 0);
    parent = b1.hash;
    c.append(b1, 100, &dep).unwrap();
    let y = mine_from(6, H256 { hi: 8, lo: 8 }, 60, 1, commit_to(&dep), 0);
    assert_eq!(c.append(y.clone(), 100, &dep), Ok(AppendOutcome::Orphan));
    for h in 2..4u64 {
        let b = mine_from(h, parent, 10 * h, 1, commit_to(&dep), 0);
        parent = b.hash;
        c.append(b, 100, &dep).unwrap();
    }
    // x waited three tip changes and is gone; y waited two and stays.
    assert_eq!(c.orphan_count(), 1);
    assert_eq!(c.append(x, 100, &dep), Err(ChainErr::OrphanExpired));
    assert_eq!(c.append(y, 100, &dep), Err(ChainErr::AlreadyKnown));
}

#[test]
fn orphan_refused_at_its_parent_is_dropped() {
    let (mut c, dep) = new_chain();
    let a = mine_from(1, c.tip_hash(), 10, 1, commit_to(&dep), 0);
    // The child's timestamp does not follow its parent's.
    let bad = mine_from(2, a.hash, 5, 1, commit_to(&dep), 0);
    assert_eq!(c.append(bad.clone(), 100, &dep), Ok(AppendOutcome::Orphan));
    assert_eq!(c.append(a.clone(), 100, &dep), Ok(AppendOutcome::Reorg { depth: 0 }));
    assert_eq!(c.orphan_count(), 0);
    assert!(!c.contains(bad.hash));
    assert_eq!(c.tip_hash(), a.hash);
}
