//! The fork-aware block store shared by the three chains.
use vstd::prelude::*;
use crate::block::{meets, meets_difficulty, Block, Checkpoint, Payload};
use crate::hash::H256;
use crate::state::{apply_batch, apply_transactions, find_account, index_of, root_of, state_root, Account};

verus! {

/// Which of the three chains a store is.
#[derive(Clone, Copy, Debug, PartialEq, Eq, Structural)]
pub enum ChainKind {
    State,
    Easy,
    Hard,
}

/// Policy parameters of one chain.
#[derive(Clone, Copy, Debug, PartialEq, Eq, Structural)]
pub struct ChainConfig {
    /// Difficulty the children of genesis must meet.
    pub initial_target: u64,
    /// Number of blocks the retarget looks back over; 0 keeps the target fixed.
    pub retarget_window: u32,
    /// Intended number of time units between blocks.
    pub block_interval: u32,
    /// How far past the local clock a timestamp may lie.
    pub max_future_drift: u64,
    /// Tip changes an orphan may wait for its parent before it is dropped.
    pub orphan_expiry: u64,
    /// Minimum depth below the easy tip of a checkpointed easy block.
    pub checkpoint_maturity: u64,
}

/// Why a block was refused.
#[derive(Clone, Copy, Debug, PartialEq, Eq, Structural)]
pub enum ChainErr {
    /// The hash does not recompute, the height does not follow the parent,
    /// the payload is of another chain's kind, or the batch is invalid.
    Malformed,
    /// The difficulty is below the target or the hash does not meet it.
    InsufficientWork,
    /// The timestamp is not after the parent's or too far past the clock.
    TimestampInvalid,
    /// The block was dropped from the orphan pool and its parent is still
    /// unknown.
    OrphanExpired,
    /// The committed position does not match the chain it points into.
    CheckpointMismatch,
    /// The checkpointed easy block is not deep enough below the easy tip.
    CheckpointNotMature,
    /// The block is already stored or already waiting in the orphan pool.
    AlreadyKnown,
}

/// What became of an accepted block.
#[derive(Clone, Copy, Debug, PartialEq, Eq, Structural)]
pub enum AppendOutcome {
    /// Its parent is unknown: it waits in the orphan pool.
    Orphan,
    /// Stored, but it does not outrank the tip.
    SideBranch,
    /// It became the tip; `depth` blocks of the old canonical path were
    /// abandoned.
    Reorg { depth: u64 },
}

/// A stored block with what the store derives for it.
pub struct Entry {
    pub block: Block,
    /// Position of the parent in the store (genesis points at itself).
    pub parent: usize,
    /// Sum of the difficulties from genesis (excluded) up to this block.
    pub cumulative: u128,
    /// Difficulty the children of this block must meet.
    pub target: u64,
    /// Account state after this block (state chain only).
    pub state: Vec<Account>,
    /// State root after this block, or the root the block commits to.
    pub state_root: H256,
}

/// A block waiting for its parent, with the tip-change count at arrival.
pub struct Orphan {
    pub block: Block,
    pub arrived: u64,
}

/// One chain: its blocks, its tip and its orphans.
pub struct Chain {
    pub kind: ChainKind,
    pub config: ChainConfig,
    /// Every accepted block; position 0 is genesis.
    pub entries: Vec<Entry>,
    /// Position of the tip in `entries`.
    pub tip: usize,
    pub orphans: Vec<Orphan>,
    /// Hashes of orphans dropped for age.
    pub expired: Vec<H256>,
    /// How many times the tip has changed (saturating).
    pub tip_changes: u64,
}

/// Fork choice: greater cumulative difficulty wins, and on a tie the
/// lexicographically smaller hash.
pub open spec fn outranks(ca: u128, ha: H256, cb: u128, hb: H256) -> bool {
    ca > cb || (ca == cb && ha.lt(hb))
}

pub open spec fn entry_outranks(a: Entry, b: Entry) -> bool {
    outranks(a.cumulative, a.block.hash, b.cumulative, b.block.hash)
}

/// The block `k` parent steps above position `i`.
pub open spec fn ancestor(es: Seq<Entry>, i: int, k: nat) -> int
    decreases k,
{
    if k == 0 {
        i
    } else {
        ancestor(es, es[i].parent as int, (k - 1) as nat)
    }
}

/// Where the walks down from `a` and from `b` meet, always stepping from the
/// later position.
pub open spec fn meet(es: Seq<Entry>, a: nat, b: nat) -> nat
    decreases a + b,
{
    if a == b {
        a
    } else if a > b {
        if es[a as int].parent < a {
            meet(es, es[a as int].parent as nat, b)
        } else {
            a
        }
    } else {
        if es[b as int].parent < b {
            meet(es, a, es[b as int].parent as nat)
        } else {
            b
        }
    }
}

/// Position `i` is linked to its parent as the store requires.
pub open spec fn linked(es: Seq<Entry>, i: int) -> bool {
    let e = es[i];
    let p = es[e.parent as int];
    &&& e.parent < i
    &&& e.block.parent_hash == p.block.hash
    &&& e.block.height == p.block.height + 1
    &&& e.cumulative == p.cumulative + e.block.difficulty
    &&& e.block.timestamp > p.block.timestamp
    &&& e.block.hash_ok()
}

/// The difficulty after a retarget: the previous one scaled by intended over
/// actual time, within a factor of four and at least 1.
pub open spec fn retarget(prev: u64, expected: int, actual: int) -> u64 {
    let raw = prev * expected / actual;
    let lo = if prev / 4 > 1 { prev / 4 } else { 1 };
    let hi = if prev * 4 > u64::MAX { u64::MAX as int } else { prev * 4 };
    if raw < lo {
        lo as u64
    } else if raw > hi {
        hi as u64
    } else {
        raw as u64
    }
}

/// Every block but genesis links to an earlier parent, cumulative
/// difficulties stay within their bound, and no hash repeats.
pub open spec fn links_ok(es: Seq<Entry>) -> bool {
    &&& es.len() >= 1
    &&& es[0].parent == 0
    &&& es[0].cumulative == 0
    &&& forall|i: int| 0 < i < es.len() ==> linked(es, i)
    &&& forall|i: int|
        0 <= i < es.len() ==> (#[trigger] es[i]).cumulative <= es[i].block.height as int
            * u64::MAX as int
    &&& forall|i: int, j: int|
        0 <= i < es.len() && 0 <= j < es.len() && i != j ==> (#[trigger] es[i]).block.hash
            != (#[trigger] es[j]).block.hash
}

pub open spec fn orphan_ok(o: Orphan, tip_changes: u64) -> bool {
    o.block.hash_ok() && o.arrived <= tip_changes
}

/// The orphans of `s` that have waited through at most `bound` tip changes
/// when the count stands at `tip_changes`, in their order.
pub open spec fn young_orphans(s: Seq<Orphan>, tip_changes: u64, bound: u64) -> Seq<Orphan>
    decreases s.len(),
{
    if s.len() == 0 {
        Seq::empty()
    } else {
        let r = young_orphans(s.drop_last(), tip_changes, bound);
        if tip_changes - s.last().arrived <= bound {
            r.push(s.last())
        } else {
            r
        }
    }
}

pub open spec fn payload_root(p: Payload) -> H256 {
    match p {
        Payload::Transactions(_) => H256 { hi: 0, lo: 0 },
        Payload::StateCommit { state_height, state_root } => state_root,
        Payload::Anchor(c) => c.state_root,
    }
}

/// Heights fall by one along every parent link, so where two walks meet
/// lies no higher than either starting point.
pub proof fn lemma_meet_height(es: Seq<Entry>, a: nat, b: nat)
    requires
        a < es.len(),
        b < es.len(),
        forall|i: int| 0 < i < es.len() ==> linked(es, i),
    ensures
        meet(es, a, b) <= a,
        meet(es, a, b) <= b,
        es[meet(es, a, b) as int].block.height <= es[a as int].block.height,
        es[meet(es, a, b) as int].block.height <= es[b as int].block.height,
    decreases a + b,
{
    if a == b {
    } else if a > b {
        assert(linked(es, a as int));
        lemma_meet_height(es, es[a as int].parent as nat, b);
    } else {
        assert(linked(es, b as int));
        lemma_meet_height(es, a, es[b as int].parent as nat);
    }
}

/// A parent within its bound leaves room for a child's difficulty, and the
/// child is within its own bound.
proof fn lemma_cumulative_bound(cum: u128, height: u64, difficulty: u64)
    requires
        cum <= height as int * u64::MAX as int,
    ensures
        cum + difficulty <= u128::MAX,
        cum + difficulty <= (height + 1) * u64::MAX as int,
{
    let h = height as int;
    let m = u64::MAX as int;
    assert(h * m + m == (h + 1) * m) by (nonlinear_arith);
    assert(h * m <= m * m) by (nonlinear_arith)
        requires h <= m, 0 <= m, 0 <= h;
    assert(m * m + m <= u128::MAX) by (nonlinear_arith)
        requires m == u64::MAX as int;
}

/// Appending an entry that links to a stored parent, stays within its bound
/// and repeats no hash keeps the store linked.
proof fn lemma_links_push(es: Seq<Entry>, e: Entry)
    requires
        links_ok(es),
        linked(es.push(e), es.len() as int),
        e.cumulative <= e.block.height as int * u64::MAX as int,
        forall|i: int| 0 <= i < es.len() ==> (#[trigger] es[i]).block.hash != e.block.hash,
    ensures
        links_ok(es.push(e)),
{
    let es2 = es.push(e);
    assert forall|i: int| 0 < i < es2.len() implies linked(es2, i) by {
        if i < es.len() {
            assert(linked(es, i));
            assert(es2[i] == es[i]);
            assert(es2[es[i].parent as int] == es[es[i].parent as int]);
        }
    }
    assert forall|i: int|
        0 <= i < es2.len() implies (#[trigger] es2[i]).cumulative <= es2[i].block.height as int
            * u64::MAX as int by {
        if i < es.len() {
            assert(es2[i] == es[i]);
        }
    }
    assert forall|i: int, j: int|
        0 <= i < es2.len() && 0 <= j < es2.len() && i != j implies (#[trigger] es2[i]).block.hash
            != (#[trigger] es2[j]).block.hash by {
        if i < es.len() && j < es.len() {
            assert(es2[i] == es[i] && es2[j] == es[j]);
        } else if i < es.len() {
            assert(es2[i] == es[i]);
        } else if j < es.len() {
            assert(es2[j] == es[j]);
        }
    }
}

/// Fork choice is a strict total order on blocks with distinct hashes: no
/// block outranks itself, of two distinct blocks exactly one outranks the
/// other, outranking is transitive, strictly greater cumulative difficulty
/// always wins, and on equal difficulty the smaller hash wins.
pub proof fn lemma_fork_choice_total_order(
    ca: u128,
    ha: H256,
    cb: u128,
    hb: H256,
    cc: u128,
    hc: H256,
)
    ensures
        !outranks(ca, ha, ca, ha),
        ha != hb ==> (outranks(ca, ha, cb, hb) <==> !outranks(cb, hb, ca, ha)),
        outranks(ca, ha, cb, hb) && outranks(cb, hb, cc, hc) ==> outranks(ca, ha, cc, hc),
        ca > cb ==> outranks(ca, ha, cb, hb),
        ca == cb ==> (outranks(ca, ha, cb, hb) <==> ha.lt(hb)),
{
}

/// Whatever order its blocks arrived in, the tip of a chain outranks every
/// other block it stores.
pub proof fn lemma_tip_outranks_all(c: Chain, i: int)
    requires
        c.store_wf(),
        0 <= i < c.len(),
        i != c.tip,
    ensures
        entry_outranks(c.tip_entry(), c.entries@[i]),
{
    let es = c.entries@;
    assert(!entry_outranks(es[i], es[c.tip as int]));
    assert(es[i].block.hash != es[c.tip as int].block.hash);
}

/// Two chains that store the same blocks, with the same cumulative
/// difficulties, have the same tip, whatever order the blocks reached each.
pub proof fn lemma_same_blocks_same_tip(c1: Chain, c2: Chain)
    requires
        c1.tip_is_best(),
        c2.tip_is_best(),
        forall|i: int|
            0 <= i < c1.len() ==> exists|j: int|
                0 <= j < c2.len() && (#[trigger] c2.entries@[j]).block.hash == (
                #[trigger] c1.entries@[i]).block.hash && c2.entries@[j].cumulative
                    == c1.entries@[i].cumulative,
        forall|j: int|
            0 <= j < c2.len() ==> exists|i: int|
                0 <= i < c1.len() && (#[trigger] c1.entries@[i]).block.hash == (
                #[trigger] c2.entries@[j]).block.hash && c1.entries@[i].cumulative
                    == c2.entries@[j].cumulative,
    ensures
        c1.tip_entry().block.hash == c2.tip_entry().block.hash,
        c1.tip_entry().cumulative == c2.tip_entry().cumulative,
{
    let t1 = c1.tip_entry();
    let t2 = c2.tip_entry();
    assert(c1.entries@[c1.tip as int] == t1);
    let j = choose|j: int|
        0 <= j < c2.len() && c2.entries@[j].block.hash == t1.block.hash
            && c2.entries@[j].cumulative == t1.cumulative;
    assert(!entry_outranks(c2.entries@[j], t2));
    assert(c2.entries@[c2.tip as int] == t2);
    let i = choose|i: int|
        0 <= i < c1.len() && c1.entries@[i].block.hash == t2.block.hash
            && c1.entries@[i].cumulative == t2.cumulative;
    assert(!entry_outranks(c1.entries@[i], t1));
}

/// A hard block whose checkpoint lies less than the maturity depth below
/// the easy tip, or above it, is refused as immature once its height, work
/// and timestamp pass, whatever else the checkpoint says.
pub proof fn lemma_shallow_checkpoint_rejected(c: Chain, b: Block, p: int, now: u64, dep: Chain)
    requires
        c.kind == ChainKind::Hard,
        b.payload is Anchor,
        ({
            let cp = b.payload->Anchor_0;
            let th = dep.tip_entry().block.height;
            cp.easy_height > th || th - cp.easy_height < c.config.checkpoint_maturity
        }),
        b.height == c.entries@[p].block.height + 1,
        b.difficulty >= c.entries@[p].target,
        meets(b.hash, b.difficulty),
        b.timestamp > c.entries@[p].block.timestamp,
        b.timestamp <= now + c.config.max_future_drift,
    ensures
        c.validate(b, p, now, dep) == Err::<(Seq<Account>, H256), ChainErr>(
            ChainErr::CheckpointNotMature,
        ),
{
    reveal(Chain::payload_check);
}

/// No orphan in the pool of a well-formed chain has waited through more tip
/// changes than the expiry bound.
pub proof fn lemma_no_stale_orphan(c: Chain, k: int)
    requires
        c.wf(),
        0 <= k < c.orphans@.len(),
    ensures
        c.tip_changes - c.orphans@[k].arrived <= c.config.orphan_expiry,
{
}

/// A block that was dropped from the pool for age is refused when it is
/// submitted again while its parent is still unknown, and the chain stays as
/// it was.
pub proof fn lemma_expired_stays_out(
    old: Chain,
    new: Chain,
    block: Block,
    now: u64,
    dep: Chain,
    r: Result<AppendOutcome, ChainErr>,
)
    requires
        Chain::append_post(old, new, block, now, dep, r),
        block.hash_ok(),
        old.expired@.contains(block.hash),
        !old.stored(block.parent_hash),
        !old.stored(block.hash),
        !old.pooled(block.hash),
    ensures
        r == Err::<AppendOutcome, ChainErr>(ChainErr::OrphanExpired),
        new == old,
{
}

/// Walking up from a position of a store gives the same block in any
/// extension of it.
proof fn lemma_ancestor_extends(es1: Seq<Entry>, es2: Seq<Entry>, p: int, k: nat)
    requires
        links_ok(es1),
        es2.len() >= es1.len(),
        es2.subrange(0, es1.len() as int) == es1,
        0 <= p < es1.len(),
    ensures
        ancestor(es2, p, k) == ancestor(es1, p, k),
        0 <= ancestor(es1, p, k) < es1.len(),
    decreases k,
{
    assert(es2[p] == es2.subrange(0, es1.len() as int)[p]);
    if k > 0 {
        if p > 0 {
            assert(linked(es1, p));
        }
        lemma_ancestor_extends(es1, es2, es1[p].parent as int, (k - 1) as nat);
    }
}

/// The checks of a child of a stored block come out the same in any
/// extension of the store.
proof fn lemma_validate_extends(c1: Chain, c2: Chain, b: Block, p: int, now: u64, dep: Chain)
    requires
        links_ok(c1.entries@),
        c1.extended_by(c2),
        0 <= p < c1.len(),
    ensures
        c1.validate(b, p, now, dep) == c2.validate(b, p, now, dep),
{
    reveal(Chain::payload_check);
    let es1 = c1.entries@;
    let es2 = c2.entries@;
    assert(es2[p] == es2.subrange(0, es1.len() as int)[p]);
    let w = c1.config.retarget_window;
    if w > 0 {
        lemma_ancestor_extends(es1, es2, p, (w - 1) as nat);
        let a = ancestor(es1, p, (w - 1) as nat);
        assert(es2[a] == es2.subrange(0, es1.len() as int)[a]);
    }
}

/// An orphan dealt with stays dealt with as the store grows.
proof fn lemma_dealt_with_extends(c1: Chain, c2: Chain, b: Block, now: u64, dep: Chain)
    requires
        links_ok(c1.entries@),
        c1.extended_by(c2),
        c1.dealt_with(b, now, dep),
    ensures
        c2.dealt_with(b, now, dep),
{
    let es1 = c1.entries@;
    let es2 = c2.entries@;
    if c1.stored(b.hash) {
        let i = choose|i: int| 0 <= i < c1.len() && (#[trigger] es1[i]).block.hash == b.hash;
        assert(es2[i] == es2.subrange(0, es1.len() as int)[i]);
    } else {
        let p = choose|p: int|
            0 <= p < c1.len() && (#[trigger] es1[p]).block.hash == b.parent_hash
                && c1.validate(b, p, now, dep) is Err;
        assert(es2[p] == es2.subrange(0, es1.len() as int)[p]);
        lemma_validate_extends(c1, c2, b, p, now, dep);
    }
}

proof fn lemma_remove_contains(s: Seq<Orphan>, r: int, x: Orphan)
    requires
        0 <= r < s.len(),
        s.contains(x),
        x != s[r],
    ensures
        s.remove(r).contains(x),
{
    let j = choose|j: int| 0 <= j < s.len() && s[j] == x;
    if j < r {
        assert(s.remove(r)[j] == x);
    } else {
        assert(s.remove(r)[j - 1] == x);
    }
}

/// Whether a block of cumulative difficulty `ca` and hash `ha` outranks one
/// of `cb` and `hb`.
pub fn outranks_exec(ca: u128, ha: H256, cb: u128, hb: H256) -> (r: bool)
    ensures
        r == outranks(ca, ha, cb, hb),
{
    ca > cb || (ca == cb && ha.less_than(&hb))
}

/// The retarget of `prev` over a window of `window` blocks of intended
/// spacing `interval` that took `actual` time units.
pub fn retarget_exec(prev: u64, window: u32, interval: u32, actual: u64) -> (r: u64)
    requires
        actual > 0,
    ensures
        r == retarget(prev, window as int * interval as int, actual as int),
{
    assert((window as int) * (interval as int) < 0x1_0000_0000_0000_0000) by (nonlinear_arith)
        requires window <= u32::MAX, interval <= u32::MAX;
    let expected: u128 = (window as u128) * (interval as u128);
    assert((prev as int) * (expected as int) <= u128::MAX) by (nonlinear_arith)
        requires prev <= u64::MAX, expected < 0x1_0000_0000_0000_0000;
    let raw: u128 = (prev as u128) * expected / (actual as u128);
    let lo: u64 = if prev / 4 > 1 { prev / 4 } else { 1 };
    let hi: u64 = if prev > u64::MAX / 4 { u64::MAX } else { prev * 4 };
    if raw < lo as u128 {
        lo
    } else if raw > hi as u128 {
        hi
    } else {
        raw as u64
    }
}

impl Chain {
    pub open spec fn len(self) -> int {
        self.entries@.len() as int
    }

    pub open spec fn tip_entry(self) -> Entry {
        self.entries@[self.tip as int]
    }

    pub open spec fn stored(self, h: H256) -> bool {
        exists|i: int| 0 <= i < self.len() && (#[trigger] self.entries@[i]).block.hash == h
    }

    pub open spec fn pooled(self, h: H256) -> bool {
        exists|k: int| 0 <= k < self.orphans@.len() && (#[trigger] self.orphans@[k]).block.hash == h
    }

    /// A block is refused at its stored parent: some stored block has its
    /// parent hash and the checks of the block as a child of it fail.
    pub open spec fn refuses_at_parent(self, b: Block, now: u64, dep: Chain) -> bool {
        exists|p: int|
            0 <= p < self.len() && (#[trigger] self.entries@[p]).block.hash == b.parent_hash
                && self.validate(b, p, now, dep) is Err
    }

    /// An orphan `b` is dealt with: stored, or refused at its parent.
    pub open spec fn dealt_with(self, b: Block, now: u64, dep: Chain) -> bool {
        self.stored(b.hash) || self.refuses_at_parent(b, now, dep)
    }

    /// `new` keeps the blocks of `self` at their positions, and the kind and
    /// the policy.
    pub open spec fn extended_by(self, new: Chain) -> bool {
        &&& new.kind == self.kind
        &&& new.config == self.config
        &&& new.len() >= self.len()
        &&& new.entries@.subrange(0, self.len()) == self.entries@
    }

    /// The store is linked and acyclic, free of repeated hashes, and its
    /// tip outranks every other block.
    pub open spec fn store_wf(self) -> bool {
        let es = self.entries@;
        &&& links_ok(es)
        &&& self.tip_is_best()
    }

    /// The tip is stored and no stored block outranks it.
    pub open spec fn tip_is_best(self) -> bool {
        let es = self.entries@;
        &&& self.tip < es.len()
        &&& forall|i: int| 0 <= i < es.len() ==> !entry_outranks(#[trigger] es[i], es[self.tip as int])
    }

    pub open spec fn orphans_ok(self) -> bool {
        forall|k: int|
            0 <= k < self.orphans@.len() ==> orphan_ok(#[trigger] self.orphans@[k], self.tip_changes)
    }

    /// Every orphan still lacks its parent and is young enough to keep.
    pub open spec fn orphans_settled(self) -> bool {
        forall|k: int|
            0 <= k < self.orphans@.len() ==> !self.stored((#[trigger] self.orphans@[k]).block.parent_hash)
                && self.tip_changes - self.orphans@[k].arrived <= self.config.orphan_expiry
    }

    pub open spec fn wf(self) -> bool {
        self.store_wf() && self.orphans_ok() && self.orphans_settled()
    }

    /// The canonical block at `h`, if the tip is that high.
    pub open spec fn canonical_at(self, h: u64) -> Option<Entry> {
        let th = self.tip_entry().block.height;
        if h > th {
            None
        } else {
            Some(self.entries@[ancestor(self.entries@, self.tip as int, (th - h) as nat)])
        }
    }

    /// The target a child of position `p` with timestamp `ts` and height
    /// `height` must meet: the parent's, retuned once the window is full.
    pub open spec fn child_target(self, p: int, height: u64, ts: u64) -> u64 {
        let w = self.config.retarget_window;
        let prev = self.entries@[p].target;
        if w == 0 || height < w {
            prev
        } else {
            let a = self.entries@[ancestor(self.entries@, p, (w - 1) as nat)];
            let actual = if ts > a.block.timestamp { ts - a.block.timestamp } else { 1 };
            retarget(prev, w as int * self.config.block_interval as int, actual)
        }
    }

    /// What the payload yields for a child of `p`: the state after it and
    /// the root recorded for it.
    #[verifier::opaque]
    pub open spec fn payload_check(self, b: Block, p: int, dep: Chain) -> Result<
        (Seq<Account>, H256),
        ChainErr,
    > {
        match self.kind {
            ChainKind::State => match b.payload {
                Payload::Transactions(txs) => match apply_batch(self.entries@[p].state@, txs@) {
                    None => Err(ChainErr::Malformed),
                    Some(s) => Ok((s, root_of(s))),
                },
                _ => Err(ChainErr::Malformed),
            },
            ChainKind::Easy => match b.payload {
                Payload::StateCommit { state_height, state_root } => match dep.canonical_at(
                    state_height,
                ) {
                    Some(e) if e.state_root == state_root => Ok((Seq::empty(), state_root)),
                    _ => Err(ChainErr::CheckpointMismatch),
                },
                _ => Err(ChainErr::Malformed),
            },
            ChainKind::Hard => match b.payload {
                Payload::Anchor(c) => self.checkpoint_check(c, dep),
                _ => Err(ChainErr::Malformed),
            },
        }
    }

    /// A checkpoint must lie at least the maturity depth below the easy tip,
    /// on the easy chain's canonical path, with the root that block commits.
    pub open spec fn checkpoint_check(self, c: Checkpoint, dep: Chain) -> Result<
        (Seq<Account>, H256),
        ChainErr,
    > {
        let th = dep.tip_entry().block.height;
        if c.easy_height > th || th - c.easy_height < self.config.checkpoint_maturity {
            Err(ChainErr::CheckpointNotMature)
        } else {
            let e = dep.canonical_at(c.easy_height).unwrap();
            if e.block.hash == c.easy_hash && e.state_root == c.state_root {
                Ok((Seq::empty(), c.state_root))
            } else {
                Err(ChainErr::CheckpointMismatch)
            }
        }
    }

    /// Every check of a block whose parent is stored at `p`, in order.
    pub open spec fn validate(self, b: Block, p: int, now: u64, dep: Chain) -> Result<
        (Seq<Account>, H256),
        ChainErr,
    > {
        let parent = self.entries@[p];
        if b.height != parent.block.height + 1 {
            Err(ChainErr::Malformed)
        } else if b.difficulty < parent.target || !meets(b.hash, b.difficulty) {
            Err(ChainErr::InsufficientWork)
        } else if b.timestamp <= parent.block.timestamp || b.timestamp > now
            + self.config.max_future_drift {
            Err(ChainErr::TimestampInvalid)
        } else {
            self.payload_check(b, p, dep)
        }
    }

    /// The entry stored for `b` as a child of `p` after validation gave `v`.
    pub open spec fn fits(self, e: Entry, b: Block, p: int, v: (Seq<Account>, H256)) -> bool {
        &&& e.block == b
        &&& e.parent == p
        &&& e.cumulative == self.entries@[p].cumulative + b.difficulty
        &&& e.target == self.child_target(p, b.height, b.timestamp)
        &&& e.state@ == v.0
        &&& e.state_root == v.1
    }

    /// The outcome of storing `e` at the end of the store.
    pub open spec fn outcome(self, e: Entry) -> AppendOutcome {
        let t = self.tip_entry();
        if entry_outranks(e, t) {
            let m = meet(self.entries@.push(e), self.tip as nat, self.len() as nat);
            AppendOutcome::Reorg {
                depth: (t.block.height - self.entries@[m as int].block.height) as u64,
            }
        } else {
            AppendOutcome::SideBranch
        }
    }

    /// Starts a chain at `genesis`. `initial_state` is the state chain's
    /// opening account set; the other chains are given an empty one.
    pub fn new(kind: ChainKind, config: ChainConfig, genesis: Block, initial_state: Vec<Account>) -> (r:
        Chain)
        ensures
            r.wf(),
            r.kind == kind,
            r.config == config,
            r.len() == 1,
            r.tip == 0,
            r.entries@[0].block == genesis,
            r.entries@[0].target == config.initial_target,
            r.entries@[0].state@ == initial_state@,
            r.entries@[0].state_root == (if kind == ChainKind::State {
                root_of(initial_state@)
            } else {
                payload_root(genesis.payload)
            }),
            r.orphans@.len() == 0,
            r.expired@.len() == 0,
            r.tip_changes == 0,
    {
        let root = match kind {
            ChainKind::State => state_root(&initial_state),
            _ => match &genesis.payload {
                Payload::Transactions(_) => H256::zero(),
                Payload::StateCommit { state_height, state_root } => *state_root,
                Payload::Anchor(c) => c.state_root,
            },
        };
        let e = Entry {
            block: genesis,
            parent: 0,
            cumulative: 0,
            target: config.initial_target,
            state: initial_state,
            state_root: root,
        };
        let mut entries: Vec<Entry> = Vec::new();
        entries.push(e);
        Chain {
            kind,
            config,
            entries,
            tip: 0,
            orphans: Vec::new(),
            expired: Vec::new(),
            tip_changes: 0,
        }
    }

    /// Position of the stored block with hash `h`.
    pub fn find_entry(&self, h: H256) -> (r: Option<usize>)
        ensures
            match r {
                None => !self.stored(h),
                Some(i) => i < self.len() && self.entries@[i as int].block.hash == h,
            },
    {
        let mut i: usize = 0;
        while i < self.entries.len()
            invariant
                i <= self.len(),
                forall|j: int| 0 <= j < i ==> (#[trigger] self.entries@[j]).block.hash != h,
            decreases self.len() - i,
        {
            if self.entries[i].block.hash == h {
                return Some(i);
            }
            i = i + 1;
        }
        None
    }

    /// Whether a block with hash `h` waits in the orphan pool.
    pub fn is_pooled(&self, h: H256) -> (r: bool)
        ensures
            r == self.pooled(h),
    {
        let mut k: usize = 0;
        while k < self.orphans.len()
            invariant
                k <= self.orphans@.len(),
                forall|j: int| 0 <= j < k ==> (#[trigger] self.orphans@[j]).block.hash != h,
            decreases self.orphans@.len() - k,
        {
            if self.orphans[k].block.hash == h {
                return true;
            }
            k = k + 1;
        }
        false
    }

    /// Whether `h` was dropped from the orphan pool for age.
    pub fn is_expired(&self, h: H256) -> (r: bool)
        ensures
            r == self.expired@.contains(h),
    {
        let mut k: usize = 0;
        while k < self.expired.len()
            invariant
                k <= self.expired@.len(),
                forall|j: int| 0 <= j < k ==> self.expired@[j] != h,
            decreases self.expired@.len() - k,
        {
            if self.expired[k] == h {
                assert(self.expired@[k as int] == h);
                return true;
            }
            k = k + 1;
        }
        false
    }

    /// Position of the block `k` parent steps above position `i`.
    pub fn ancestor_index(&self, i: usize, k: u64) -> (r: usize)
        requires
            links_ok(self.entries@),
            i < self.len(),
        ensures
            r == ancestor(self.entries@, i as int, k as nat),
            r < self.len(),
    {
        let mut cur = i;
        let mut left = k;
        while left > 0
            invariant
                links_ok(self.entries@),
                cur < self.len(),
                ancestor(self.entries@, cur as int, left as nat) == ancestor(
                    self.entries@,
                    i as int,
                    k as nat,
                ),
            decreases left,
        {
            let p = self.entries[cur].parent;
            proof {
                if cur > 0 {
                    assert(linked(self.entries@, cur as int));
                }
            }
            cur = p;
            left = left - 1;
        }
        cur
    }

    /// Where the walks down from `a` and `b` meet.
    pub fn meet_index(&self, a: usize, b: usize) -> (r: usize)
        requires
            links_ok(self.entries@),
            a < self.len(),
            b < self.len(),
        ensures
            r as nat == meet(self.entries@, a as nat, b as nat),
            r < self.len(),
    {
        let mut x = a;
        let mut y = b;
        while x != y
            invariant
                links_ok(self.entries@),
                x < self.len(),
                y < self.len(),
                meet(self.entries@, x as nat, y as nat) == meet(self.entries@, a as nat, b as nat),
            decreases x + y,
        {
            if x > y {
                assert(linked(self.entries@, x as int));
                x = self.entries[x].parent;
            } else {
                assert(linked(self.entries@, y as int));
                y = self.entries[y].parent;
            }
        }
        x
    }

    /// The canonical block at height `h`, if the tip is that high.
    pub fn canonical_index(&self, h: u64) -> (r: Option<usize>)
        requires
            self.store_wf(),
        ensures
            match r {
                None => self.canonical_at(h).is_none(),
                Some(i) => i < self.len() && self.canonical_at(h) == Some(self.entries@[i as int]),
            },
    {
        let th = self.entries[self.tip].block.height;
        if h > th {
            None
        } else {
            Some(self.ancestor_index(self.tip, th - h))
        }
    }

    /// The target a child of `p` must meet.
    pub fn target_for_child(&self, p: usize, height: u64, ts: u64) -> (r: u64)
        requires
            self.store_wf(),
            p < self.len(),
        ensures
            r == self.child_target(p as int, height, ts),
    {
        let w = self.config.retarget_window;
        let prev = self.entries[p].target;
        if w == 0 || height < w as u64 {
            prev
        } else {
            let a = self.ancestor_index(p, (w - 1) as u64);
            let ats = self.entries[a].block.timestamp;
            let actual = if ts > ats { ts - ats } else { 1 };
            retarget_exec(prev, w, self.config.block_interval, actual)
        }
    }

    /// Every check of a block whose parent is stored at `p`; on success the
    /// state after the block and its root.
    pub fn validate_block(&self, b: &Block, p: usize, now: u64, dep: &Chain) -> (r: Result<
        (Vec<Account>, H256),
        ChainErr,
    >)
        requires
            self.store_wf(),
            dep.store_wf(),
            p < self.len(),
        ensures
            match r {
                Err(e) => self.validate(*b, p as int, now, *dep) == Err::<(Seq<Account>, H256), ChainErr>(e),
                Ok(v) => self.validate(*b, p as int, now, *dep) == Ok::<(Seq<Account>, H256), ChainErr>((v.0@, v.1)),
            },
    {
        let parent = &self.entries[p];
        if parent.block.height == u64::MAX || b.height != parent.block.height + 1 {
            return Err(ChainErr::Malformed);
        }
        if b.difficulty < parent.target || !meets_difficulty(b.hash, b.difficulty) {
            return Err(ChainErr::InsufficientWork);
        }
        if b.timestamp <= parent.block.timestamp || (b.timestamp > now && b.timestamp - now
            > self.config.max_future_drift) {
            return Err(ChainErr::TimestampInvalid);
        }
        proof {
            reveal(Chain::payload_check);
        }
        match self.kind {
            ChainKind::State => match &b.payload {
                Payload::Transactions(txs) => match apply_transactions(&parent.state, txs) {
                    None => Err(ChainErr::Malformed),
                    Some(s) => {
                        let root = state_root(&s);
                        Ok((s, root))
                    },
                },
                _ => Err(ChainErr::Malformed),
            },
            ChainKind::Easy => match &b.payload {
                Payload::StateCommit { state_height, state_root } => match dep.canonical_index(
                    *state_height,
                ) {
                    Some(i) => {
                        if dep.entries[i].state_root == *state_root {
                            Ok((Vec::new(), *state_root))
                        } else {
                            Err(ChainErr::CheckpointMismatch)
                        }
                    },
                    None => Err(ChainErr::CheckpointMismatch),
                },
                _ => Err(ChainErr::Malformed),
            },
            ChainKind::Hard => match &b.payload {
                Payload::Anchor(c) => self.check_checkpoint(c, dep),
                _ => Err(ChainErr::Malformed),
            },
        }
    }

    /// Checks a hard block's checkpoint against the easy chain `dep`.
    pub fn check_checkpoint(&self, c: &Checkpoint, dep: &Chain) -> (r: Result<
        (Vec<Account>, H256),
        ChainErr,
    >)
        requires
            dep.store_wf(),
        ensures
            match r {
                Err(e) => self.checkpoint_check(*c, *dep) == Err::<(Seq<Account>, H256), ChainErr>(e),
                Ok(v) => self.checkpoint_check(*c, *dep) == Ok::<(Seq<Account>, H256), ChainErr>((v.0@, v.1)),
            },
    {
        let th = dep.entries[dep.tip].block.height;
        if c.easy_height > th || th - c.easy_height < self.config.checkpoint_maturity {
            return Err(ChainErr::CheckpointNotMature);
        }
        let i = dep.ancestor_index(dep.tip, th - c.easy_height);
        if dep.entries[i].block.hash == c.easy_hash && dep.entries[i].state_root == c.state_root {
            let v: Vec<Account> = Vec::new();
            assert(v@ =~= Seq::<Account>::empty());
            Ok((v, c.state_root))
        } else {
            Err(ChainErr::CheckpointMismatch)
        }
    }

    /// Stores `b` as a child of position `p` when every check passes, and
    /// moves the tip to it when it outranks the tip.
    fn attach(&mut self, b: Block, p: usize, now: u64, dep: &Chain) -> (r: Result<
        AppendOutcome,
        ChainErr,
    >)
        requires
            old(self).store_wf(),
            old(self).orphans_ok(),
            dep.store_wf(),
            p < old(self).len(),
            old(self).entries@[p as int].block.hash == b.parent_hash,
            b.hash_ok(),
        ensures
            final(self).store_wf(),
            final(self).orphans_ok(),
            final(self).kind == old(self).kind,
            final(self).config == old(self).config,
            final(self).orphans == old(self).orphans,
            final(self).expired == old(self).expired,
            final(self).tip_changes >= old(self).tip_changes,
            final(self).len() >= old(self).len(),
            final(self).entries@.subrange(0, old(self).len()) == old(self).entries@,
            old(self).stored(b.hash) ==> r == Err::<AppendOutcome, ChainErr>(ChainErr::AlreadyKnown)
                && *final(self) == *old(self),
            !old(self).stored(b.hash) ==> match old(self).validate(b, p as int, now, *dep) {
                Err(e) => r == Err::<AppendOutcome, ChainErr>(e) && *final(self) == *old(self),
                Ok(v) => {
                    &&& final(self).len() == old(self).len() + 1
                    &&& old(self).fits(final(self).entries@[old(self).len()], b, p as int, v)
                    &&& r == Ok::<AppendOutcome, ChainErr>(
                        old(self).outcome(final(self).entries@[old(self).len()]),
                    )
                },
            },
    {
        if self.find_entry(b.hash).is_some() {
            return Err(ChainErr::AlreadyKnown);
        }
        let (state, root) = match self.validate_block(&b, p, now, dep) {
            Err(e) => {
                return Err(e);
            },
            Ok(v) => v,
        };
        let ghost es = self.entries@;
        let pcum = self.entries[p].cumulative;
        proof {
            lemma_cumulative_bound(es[p as int].cumulative, es[p as int].block.height, b.difficulty);
        }
        let cum = pcum + b.difficulty as u128;
        let target = self.target_for_child(p, b.height, b.timestamp);
        let e = Entry { block: b, parent: p, cumulative: cum, target, state, state_root: root };
        proof {
            assert(self.entries@.push(e)[p as int] == es[p as int]);
        }
        Ok(self.insert_entry(e))
    }

    /// Appends a checked entry to the store and moves the tip to it when it
    /// outranks the tip.
    fn insert_entry(&mut self, e: Entry) -> (r: AppendOutcome)
        requires
            old(self).store_wf(),
            old(self).orphans_ok(),
            linked(old(self).entries@.push(e), old(self).len()),
            e.cumulative <= e.block.height as int * u64::MAX as int,
            !old(self).stored(e.block.hash),
        ensures
            final(self).store_wf(),
            final(self).orphans_ok(),
            final(self).entries@ == old(self).entries@.push(e),
            final(self).kind == old(self).kind,
            final(self).config == old(self).config,
            final(self).orphans == old(self).orphans,
            final(self).expired == old(self).expired,
            final(self).tip_changes >= old(self).tip_changes,
            r == old(self).outcome(e),
    {
        let ghost es = self.entries@;
        let old_tip = self.tip;
        let tcum = self.entries[old_tip].cumulative;
        let thash = self.entries[old_tip].block.hash;
        let theight = self.entries[old_tip].block.height;
        let wins = outranks_exec(e.cumulative, e.block.hash, tcum, thash);
        proof {
            assert forall|i: int| 0 <= i < es.len() implies (#[trigger] es[i]).block.hash != e.block.hash by {
            }
            lemma_links_push(es, e);
        }
        self.entries.push(e);
        let n = self.entries.len() - 1;
        let ghost es2 = self.entries@;
        if wins {
            let m = self.meet_index(old_tip, n);
            proof {
                lemma_meet_height(es2, old_tip as nat, n as nat);
                assert(es2[m as int] == es[m as int]);
            }
            let depth = theight - self.entries[m].block.height;
            self.tip = n;
            if self.tip_changes < u64::MAX {
                self.tip_changes = self.tip_changes + 1;
            }
            proof {
                assert forall|i: int| 0 <= i < es2.len() implies !entry_outranks(
                    #[trigger] es2[i],
                    es2[n as int],
                ) by {
                    if i < es.len() {
                        assert(es2[i] == es[i]);
                        assert(!entry_outranks(es[i], es[old_tip as int]));
                    }
                }
                assert forall|k: int| 0 <= k < self.orphans@.len() implies orphan_ok(
                    #[trigger] self.orphans@[k],
                    self.tip_changes,
                ) by {
                    assert(orphan_ok(old(self).orphans@[k], old(self).tip_changes));
                }
            }
            AppendOutcome::Reorg { depth }
        } else {
            proof {
                assert forall|i: int| 0 <= i < es2.len() implies !entry_outranks(
                    #[trigger] es2[i],
                    es2[old_tip as int],
                ) by {
                    if i < es.len() {
                        assert(es2[i] == es[i]);
                    }
                }
            }
            AppendOutcome::SideBranch
        }
    }

    /// The first orphan whose parent is stored, with the parent's position.
    fn find_ready_orphan(&self) -> (r: Option<(usize, usize)>)
        ensures
            match r {
                None => forall|k: int|
                    0 <= k < self.orphans@.len() ==> !self.stored(
                        (#[trigger] self.orphans@[k]).block.parent_hash,
                    ),
                Some((k, p)) => k < self.orphans@.len() && p < self.len()
                    && self.entries@[p as int].block.hash == self.orphans@[k as int].block.parent_hash,
            },
    {
        let mut k: usize = 0;
        while k < self.orphans.len()
            invariant
                k <= self.orphans@.len(),
                forall|j: int|
                    0 <= j < k ==> !self.stored((#[trigger] self.orphans@[j]).block.parent_hash),
            decreases self.orphans@.len() - k,
        {
            match self.find_entry(self.orphans[k].block.parent_hash) {
                Some(p) => {
                    return Some((k, p));
                },
                None => {},
            }
            k = k + 1;
        }
        None
    }

    /// Attaches, in turn, every orphan whose parent is stored, until none
    /// is left; an orphan that fails its checks is dropped.
    fn resolve_orphans(&mut self, now: u64, dep: &Chain)
        requires
            old(self).store_wf(),
            old(self).orphans_ok(),
            dep.store_wf(),
        ensures
            final(self).store_wf(),
            final(self).orphans_ok(),
            forall|k: int|
                0 <= k < final(self).orphans@.len() ==> !final(self).stored(
                    (#[trigger] final(self).orphans@[k]).block.parent_hash,
                ),
            final(self).kind == old(self).kind,
            final(self).config == old(self).config,
            final(self).expired == old(self).expired,
            final(self).tip_changes >= old(self).tip_changes,
            final(self).len() >= old(self).len(),
            final(self).entries@.subrange(0, old(self).len()) == old(self).entries@,
            forall|k: int|
                0 <= k < old(self).orphans@.len() ==> final(self).orphans@.contains(
                    #[trigger] old(self).orphans@[k],
                ) || final(self).dealt_with(old(self).orphans@[k].block, now, *dep),
    {
        let ghost es0 = self.entries@;
        let ghost orig = self.orphans@;
        proof {
            assert forall|k: int| 0 <= k < orig.len() implies self.orphans@.contains(
                #[trigger] orig[k],
            ) || self.dealt_with(orig[k].block, now, *dep) by {
                assert(self.orphans@[k] == orig[k]);
            }
        }
        let mut done = false;
        while !done
            invariant
                self.store_wf(),
                self.orphans_ok(),
                dep.store_wf(),
                self.kind == old(self).kind,
                self.config == old(self).config,
                self.expired == old(self).expired,
                self.tip_changes >= old(self).tip_changes,
                self.len() >= es0.len(),
                self.entries@.subrange(0, es0.len() as int) == es0,
                forall|k: int|
                    0 <= k < orig.len() ==> self.orphans@.contains(#[trigger] orig[k])
                        || self.dealt_with(orig[k].block, now, *dep),
                done ==> forall|k: int|
                    0 <= k < self.orphans@.len() ==> !self.stored(
                        (#[trigger] self.orphans@[k]).block.parent_hash,
                    ),
            decreases self.orphans@.len() + (if done { 0int } else { 1int }),
        {
            match self.find_ready_orphan() {
                None => {
                    done = true;
                },
                Some((k, p)) => {
                    let ghost mid = self.entries@;
                    let ghost pool = self.orphans@;
                    let ghost before = *self;
                    let o = self.orphans.remove(k);
                    proof {
                        assert(orphan_ok(pool[k as int], self.tip_changes));
                        assert forall|j: int| 0 <= j < self.orphans@.len() implies orphan_ok(
                            #[trigger] self.orphans@[j],
                            self.tip_changes,
                        ) by {
                            if j < k {
                                assert(self.orphans@[j] == pool[j]);
                            } else {
                                assert(self.orphans@[j] == pool[j + 1]);
                            }
                        }
                    }
                    let ghost removed = self.orphans@;
                    let ghost ob = o.block;
                    let ghost after_remove = *self;
                    let _ = self.attach(o.block, p, now, dep);
                    proof {
                        assert(after_remove.entries@.subrange(0, before.len()) =~= before.entries@);
                        assert(before.extended_by(after_remove));
                        assert(after_remove.extended_by(*self));
                        assert(self.orphans@ == removed);
                        if !after_remove.stored(ob.hash) {
                            assert(self.entries@[p as int] == self.entries@.subrange(0, mid.len() as int)[p as int]);
                            match after_remove.validate(ob, p as int, now, *dep) {
                                Err(e) => {
                                    assert(self.refuses_at_parent(ob, now, *dep));
                                },
                                Ok(v) => {
                                    assert(self.entries@[mid.len() as int].block == ob);
                                    assert(self.stored(ob.hash));
                                },
                            }
                        } else {
                            lemma_dealt_with_extends(after_remove, *self, ob, now, *dep);
                        }
                        assert forall|j: int| 0 <= j < orig.len() implies self.orphans@.contains(
                            #[trigger] orig[j],
                        ) || self.dealt_with(orig[j].block, now, *dep) by {
                            if before.orphans@.contains(orig[j]) {
                                if orig[j] == pool[k as int] {
                                } else {
                                    lemma_remove_contains(pool, k as int, orig[j]);
                                }
                            } else {
                                lemma_dealt_with_extends(before, after_remove, orig[j].block, now, *dep);
                                lemma_dealt_with_extends(after_remove, *self, orig[j].block, now, *dep);
                            }
                        }
                        assert(self.entries@.subrange(0, mid.len() as int) == mid);
                        assert(self.entries@.subrange(0, es0.len() as int) =~= mid.subrange(
                            0,
                            es0.len() as int,
                        ));
                    }
                },
            }
        }
    }

    /// Drops every orphan that has waited more than the expiry bound of tip
    /// changes, and records its hash so that it is refused while its parent
    /// stays unknown.
    pub fn evict_expired_orphans(&mut self)
        requires
            old(self).store_wf(),
            old(self).orphans_ok(),
            forall|k: int|
                0 <= k < old(self).orphans@.len() ==> !old(self).stored(
                    (#[trigger] old(self).orphans@[k]).block.parent_hash,
                ),
        ensures
            final(self).wf(),
            final(self).kind == old(self).kind,
            final(self).config == old(self).config,
            final(self).entries == old(self).entries,
            final(self).tip == old(self).tip,
            final(self).tip_changes == old(self).tip_changes,
            final(self).expired@.len() >= old(self).expired@.len(),
            final(self).expired@.subrange(0, old(self).expired@.len() as int) == old(self).expired@,
            forall|k: int|
                0 <= k < old(self).orphans@.len() && old(self).tip_changes
                    - (#[trigger] old(self).orphans@[k]).arrived > old(self).config.orphan_expiry
                    ==> final(self).expired@.contains(old(self).orphans@[k].block.hash),
            final(self).orphans@ == young_orphans(
                old(self).orphans@,
                old(self).tip_changes,
                old(self).config.orphan_expiry,
            ),
    {
        let ghost orig = self.orphans@;
        let ghost ex0 = self.expired@;
        let n = self.orphans.len();
        let mut pool: Vec<Orphan> = Vec::new();
        std::mem::swap(&mut pool, &mut self.orphans);
        let mut kept: Vec<Orphan> = Vec::new();
        assert(orig.subrange(0, 0) =~= Seq::<Orphan>::empty());
        let tc = self.tip_changes;
        let bound = self.config.orphan_expiry;
        let mut i: usize = 0;
        while pool.len() > 0
            invariant
                pool@ == orig.subrange(i as int, orig.len() as int),
                i <= orig.len(),
                i + pool@.len() == orig.len(),
                orig.len() == n,
                kept@ == young_orphans(orig.subrange(0, i as int), tc, bound),
                orig == old(self).orphans@,
                self.kind == old(self).kind,
                self.config == old(self).config,
                self.tip == old(self).tip,
                forall|j: int| 0 <= j < orig.len() ==> orphan_ok(#[trigger] orig[j], tc),
                forall|j: int| 0 <= j < orig.len() ==> !self.stored((#[trigger] orig[j]).block.parent_hash),
                self.tip_changes == tc,
                self.config.orphan_expiry == bound,
                self.store_wf(),
                self.entries == old(self).entries,
                self.expired@.len() >= ex0.len(),
                self.expired@.subrange(0, ex0.len() as int) == ex0,
                forall|j: int|
                    0 <= j < i && tc - (#[trigger] orig[j]).arrived > bound ==> self.expired@.contains(
                        orig[j].block.hash,
                    ),
                forall|m: int|
                    0 <= m < kept@.len() ==> orphan_ok(#[trigger] kept@[m], tc) && !self.stored(
                        kept@[m].block.parent_hash,
                    ) && tc - kept@[m].arrived <= bound,
            decreases orig.len() - i,
        {
            let ghost before_pool = pool@;
            let o = pool.remove(0);
            assert(o == orig[i as int]);
            assert(pool@ =~= orig.subrange(i + 1, orig.len() as int));
            assert(orphan_ok(orig[i as int], tc));
            assert(orig.subrange(0, i + 1).drop_last() =~= orig.subrange(0, i as int));
            assert(orig.subrange(0, i + 1).last() == o);
            if tc - o.arrived > bound {
                let ghost before = self.expired@;
                self.expired.push(o.block.hash);
                proof {
                    assert(self.expired@[before.len() as int] == o.block.hash);
                    assert forall|j: int|
                        0 <= j < i + 1 && tc - (#[trigger] orig[j]).arrived > bound implies self.expired@.contains(
                            orig[j].block.hash,
                        ) by {
                        if j < i {
                            let w = choose|w: int| 0 <= w < before.len() && before[w] == orig[j].block.hash;
                            assert(self.expired@[w] == before[w]);
                        }
                    }
                    assert(self.expired@.subrange(0, ex0.len() as int) =~= before.subrange(0, ex0.len() as int));
                }
            } else {
                kept.push(o);
            }
            i = i + 1;
        }
        assert(orig.subrange(0, orig.len() as int) =~= orig);
        self.orphans = kept;
    }

    /// What submitting `block` does to a chain `old`, leaving `new` and
    /// returning `r`.
    pub open spec fn append_post(
        old: Chain,
        new: Chain,
        block: Block,
        now: u64,
        dep: Chain,
        r: Result<AppendOutcome, ChainErr>,
    ) -> bool {
        &&& (new.kind == old.kind)
        &&& (new.config == old.config)
        &&& (new.len() >= old.len())
        &&& (new.entries@.subrange(0, old.len()) == old.entries@)
        &&& (new.expired@.len() >= old.expired@.len())
        &&& (new.expired@.subrange(0, old.expired@.len() as int) == old.expired@)
        &&& (r is Err ==> new == old)
        &&& (!block.hash_ok() ==> r == Err::<AppendOutcome, ChainErr>(ChainErr::Malformed) && new
                == old)
        &&& (block.hash_ok() && (old.stored(block.hash) || old.pooled(block.hash)) ==> r
                == Err::<AppendOutcome, ChainErr>(ChainErr::AlreadyKnown) && new == old)
        &&& (block.hash_ok() && !old.stored(block.hash) && !old.pooled(block.hash)
                && !old.stored(block.parent_hash) ==> if old.expired@.contains(block.hash) {
                r == Err::<AppendOutcome, ChainErr>(ChainErr::OrphanExpired) && new == old
            } else {
                &&& r == Ok::<AppendOutcome, ChainErr>(AppendOutcome::Orphan)
                &&& new.entries == old.entries
                &&& new.tip == old.tip
                &&& new.tip_changes == old.tip_changes
                &&& new.expired == old.expired
                &&& new.orphans@ == old.orphans@.push(
                    Orphan { block: block, arrived: old.tip_changes },
                )
            })
        &&& (forall|p: int|
                0 <= p < old.len() && (#[trigger] old.entries@[p]).block.hash
                    == block.parent_hash && block.hash_ok() && !old.stored(block.hash)
                    && !old.pooled(block.hash) ==> match old.validate(block, p, now, dep) {
                    Err(e) => r == Err::<AppendOutcome, ChainErr>(e) && new == old,
                    Ok(v) => {
                        &&& new.len() > old.len()
                        &&& old.fits(new.entries@[old.len()], block, p, v)
                        &&& r == Ok::<AppendOutcome, ChainErr>(
                            old.outcome(new.entries@[old.len()]),
                        )
                    },
                })
        &&& (forall|k: int|
            0 <= k < old.orphans@.len() && new.stored((#[trigger] old.orphans@[k]).block.parent_hash)
                ==> new.dealt_with(old.orphans@[k].block, now, dep))
    }

    /// Submits a block. A block whose parent is unknown waits in the orphan
    /// pool; one whose parent is stored is checked and stored, the tip
    /// follows the fork choice, and every orphan that can now be attached is.
    /// `now` is the local clock; `dep` is the chain this one's payloads point
    /// into: the state chain for the easy chain, the easy chain for the hard
    /// chain. The state chain reads nothing from it.
    pub fn append(&mut self, block: Block, now: u64, dep: &Chain) -> (r: Result<
        AppendOutcome,
        ChainErr,
    >)
        requires
            old(self).wf(),
            dep.wf(),
        ensures
            final(self).wf(),
            Chain::append_post(*old(self), *final(self), block, now, *dep, r),
    {
        proof {
            assert(self.entries@.subrange(0, self.len()) =~= self.entries@);
            assert(self.expired@.subrange(0, self.expired@.len() as int) =~= self.expired@);
        }
        if !block.has_valid_hash() {
            return Err(ChainErr::Malformed);
        }
        if self.find_entry(block.hash).is_some() || self.is_pooled(block.hash) {
            return Err(ChainErr::AlreadyKnown);
        }
        match self.find_entry(block.parent_hash) {
            None => {
                if self.is_expired(block.hash) {
                    return Err(ChainErr::OrphanExpired);
                }
                let arrived = self.tip_changes;
                let ghost pool = self.orphans@;
                self.orphans.push(Orphan { block, arrived });
                proof {
                    assert forall|k: int| 0 <= k < self.orphans@.len() implies orphan_ok(
                        #[trigger] self.orphans@[k],
                        self.tip_changes,
                    ) by {
                        if k < pool.len() {
                            assert(self.orphans@[k] == pool[k]);
                        }
                    }
                    assert forall|k: int|
                        0 <= k < self.orphans@.len() implies !self.stored(
                            (#[trigger] self.orphans@[k]).block.parent_hash,
                        ) && self.tip_changes - self.orphans@[k].arrived <= self.config.orphan_expiry by {
                        if k < pool.len() {
                            assert(self.orphans@[k] == pool[k]);
                        }
                    }
                    assert(self.expired@.subrange(0, self.expired@.len() as int) =~= self.expired@);
                    assert(self.entries@.subrange(0, self.len()) =~= self.entries@);
                }
                Ok(AppendOutcome::Orphan)
            },
            Some(p) => {
                let ghost es0 = self.entries@;
                let ghost ex0 = self.expired@;
                let r = self.attach(block, p, now, dep);
                if r.is_ok() {
                    let ghost mid = self.entries@;
                    self.resolve_orphans(now, dep);
                    let ghost mid2 = self.entries@;
                    let ghost c2 = *self;
                    self.evict_expired_orphans();
                    proof {
                        assert(self.entries@.subrange(0, c2.len()) =~= c2.entries@);
                        assert(c2.extended_by(*self));
                        assert forall|k: int|
                            0 <= k < old(self).orphans@.len() && self.stored(
                                (#[trigger] old(self).orphans@[k]).block.parent_hash,
                            ) implies self.dealt_with(old(self).orphans@[k].block, now, *dep) by {
                            let x = old(self).orphans@[k];
                            assert(c2.stored(x.block.parent_hash));
                            if c2.orphans@.contains(x) {
                                let j = choose|j: int| 0 <= j < c2.orphans@.len() && c2.orphans@[j] == x;
                                assert(!c2.stored(c2.orphans@[j].block.parent_hash));
                            } else {
                                lemma_dealt_with_extends(c2, *self, x.block, now, *dep);
                            }
                        }
                        assert(mid2.subrange(0, mid.len() as int) == mid);
                        assert(self.entries@[es0.len() as int] == mid2.subrange(0, mid.len() as int)[es0.len() as int]);
                        assert(self.entries@.subrange(0, es0.len() as int) =~= mid.subrange(0, es0.len() as int));
                        assert(ex0.subrange(0, ex0.len() as int) =~= ex0);
                    }
                } else {
                    proof {
                        assert(self.expired@.subrange(0, self.expired@.len() as int) =~= self.expired@);
                        assert(self.entries@.subrange(0, self.len()) =~= self.entries@);
                    }
                }
                r
            },
        }
    }

    /// Hash, height and cumulative difficulty of the tip.
    pub fn current_tip(&self) -> (r: (H256, u64, u128))
        requires
            self.store_wf(),
        ensures
            r == (self.tip_entry().block.hash, self.tip_entry().block.height, self.tip_entry().cumulative),
    {
        let e = &self.entries[self.tip];
        (e.block.hash, e.block.height, e.cumulative)
    }

    /// Hash of the tip.
    pub fn tip_hash(&self) -> (r: H256)
        requires
            self.store_wf(),
        ensures
            r == self.tip_entry().block.hash,
    {
        self.entries[self.tip].block.hash
    }

    /// Height of the tip.
    pub fn height(&self) -> (r: u64)
        requires
            self.store_wf(),
        ensures
            r == self.tip_entry().block.height,
    {
        self.entries[self.tip].block.height
    }

    /// Cumulative difficulty of the tip.
    pub fn total_difficulty(&self) -> (r: u128)
        requires
            self.store_wf(),
        ensures
            r == self.tip_entry().cumulative,
    {
        self.entries[self.tip].cumulative
    }

    /// Difficulty the next block on the tip must meet.
    pub fn current_target(&self) -> (r: u64)
        requires
            self.store_wf(),
        ensures
            r == self.tip_entry().target,
    {
        self.entries[self.tip].target
    }

    /// State root recorded at the tip.
    pub fn state_root(&self) -> (r: H256)
        requires
            self.store_wf(),
        ensures
            r == self.tip_entry().state_root,
    {
        self.entries[self.tip].state_root
    }

    /// Balance of `address` in the state at the tip (state chain), if the
    /// account exists.
    pub fn balance_of(&self, address: u64) -> (r: Option<u64>)
        requires
            self.store_wf(),
        ensures
            match r {
                None => index_of(self.tip_entry().state@, address) == -1,
                Some(b) => {
                    let s = self.tip_entry().state@;
                    index_of(s, address) >= 0 && b == s[index_of(s, address)].balance
                },
            },
    {
        let st = &self.entries[self.tip].state;
        match find_account(st, address) {
            None => None,
            Some(i) => Some(st[i].balance),
        }
    }

    /// Hash of the canonical block at height `h`: the height index of the
    /// canonical path.
    pub fn canonical_hash_at(&self, h: u64) -> (r: Option<H256>)
        requires
            self.store_wf(),
        ensures
            match self.canonical_at(h) {
                None => r.is_none(),
                Some(e) => r == Some(e.block.hash),
            },
    {
        match self.canonical_index(h) {
            None => None,
            Some(i) => Some(self.entries[i].block.hash),
        }
    }

    /// Number of blocks waiting in the orphan pool.
    pub fn orphan_count(&self) -> (r: usize)
        ensures
            r == self.orphans@.len(),
    {
        self.orphans.len()
    }

    /// Number of stored blocks, genesis included.
    pub fn block_count(&self) -> (r: usize)
        ensures
            r == self.len(),
    {
        self.entries.len()
    }

    /// Whether a block with hash `h` is stored.
    pub fn contains(&self, h: H256) -> (r: bool)
        ensures
            r == self.stored(h),
    {
        self.find_entry(h).is_some()
    }
}

} // verus!
