//! The aggregate view over the three chains, and the node that owns them.
use vstd::prelude::*;
use crate::block::{Block, Checkpoint, Payload};
use crate::chain::{AppendOutcome, Chain, ChainErr, ChainKind};
use crate::hash::H256;

verus! {

/// A snapshot of the three chains, derived from their tips.
#[derive(Clone, Copy, Debug, PartialEq, Eq, Structural)]
pub struct PowChainState {
    /// Height of the hard tip.
    pub height: u64,
    /// Cumulative difficulty of the hard tip.
    pub total_difficulty: u128,
    /// Difficulty the next hard block must meet.
    pub current_target: u64,
    /// The checkpoint the hard tip carries, if it carries one.
    pub latest_checkpoint: Option<Checkpoint>,
    /// Height of the easy tip.
    pub easy_height: u64,
    /// State root at the state tip.
    pub state_root: H256,
}

pub open spec fn checkpoint_of(p: Payload) -> Option<Checkpoint> {
    match p {
        Payload::Anchor(c) => Some(c),
        _ => None,
    }
}

/// The snapshot the three tips determine.
pub open spec fn snapshot(hard: Chain, easy: Chain, state: Chain) -> PowChainState {
    PowChainState {
        height: hard.tip_entry().block.height,
        total_difficulty: hard.tip_entry().cumulative,
        current_target: hard.tip_entry().target,
        latest_checkpoint: checkpoint_of(hard.tip_entry().block.payload),
        easy_height: easy.tip_entry().block.height,
        state_root: state.tip_entry().state_root,
    }
}

impl PowChainState {
    /// Derives the snapshot from the three chains' tips.
    pub fn recompute(hard: &Chain, easy: &Chain, state: &Chain) -> (r: PowChainState)
        requires
            hard.store_wf(),
            easy.store_wf(),
            state.store_wf(),
        ensures
            r == snapshot(*hard, *easy, *state),
    {
        let h = &hard.entries[hard.tip];
        let latest_checkpoint = match &h.block.payload {
            Payload::Anchor(c) => Some(*c),
            _ => None,
        };
        PowChainState {
            height: h.block.height,
            total_difficulty: h.cumulative,
            current_target: h.target,
            latest_checkpoint,
            easy_height: easy.entries[easy.tip].block.height,
            state_root: state.entries[state.tip].state_root,
        }
    }
}

/// What a submission announces to the node's other parts.
#[derive(Clone, Copy, Debug, PartialEq, Eq, Structural)]
pub enum ChainEvent {
    /// The tip of the chain of `kind` is now `hash` at `height`.
    TipChanged { kind: ChainKind, hash: H256, height: u64 },
    /// The chain of `kind` abandoned `depth` blocks of its canonical path.
    Reorg { kind: ChainKind, depth: u64 },
    /// The new hard tip binds the ledger to this checkpoint.
    CheckpointFinalized(Checkpoint),
}

/// The events a submission to the chain of `kind` announces, given the tip
/// hash before it, the chain after it, and its result: a changed tip, then a
/// reorganisation that abandoned blocks, then, on the hard chain, the
/// checkpoint of a new tip.
pub open spec fn events_of(
    kind: ChainKind,
    before: H256,
    after: Chain,
    r: Result<AppendOutcome, ChainErr>,
) -> Seq<ChainEvent> {
    let t = after.tip_entry();
    let changed = t.block.hash != before;
    let tip_ev = if changed {
        seq![ChainEvent::TipChanged { kind, hash: t.block.hash, height: t.block.height }]
    } else {
        Seq::empty()
    };
    let reorg_ev = match r {
        Ok(AppendOutcome::Reorg { depth }) if depth > 0 => seq![ChainEvent::Reorg { kind, depth }],
        _ => Seq::empty(),
    };
    let cp_ev = match checkpoint_of(t.block.payload) {
        Some(c) if changed && kind == ChainKind::Hard => seq![ChainEvent::CheckpointFinalized(c)],
        _ => Seq::empty(),
    };
    tip_ev + reorg_ev + cp_ev
}

/// The events of a submission to the chain `after` of `kind`.
pub fn chain_events(
    kind: ChainKind,
    before: H256,
    after: &Chain,
    r: &Result<AppendOutcome, ChainErr>,
) -> (evs: Vec<ChainEvent>)
    requires
        after.store_wf(),
    ensures
        evs@ == events_of(kind, before, *after, *r),
{
    let t = &after.entries[after.tip];
    let changed = t.block.hash != before;
    let mut evs: Vec<ChainEvent> = Vec::new();
    if changed {
        evs.push(ChainEvent::TipChanged { kind, hash: t.block.hash, height: t.block.height });
    }
    match r {
        Ok(AppendOutcome::Reorg { depth }) => {
            if *depth > 0 {
                evs.push(ChainEvent::Reorg { kind, depth: *depth });
            }
        },
        _ => {},
    }
    match &t.block.payload {
        Payload::Anchor(c) => {
            if changed && kind == ChainKind::Hard {
                evs.push(ChainEvent::CheckpointFinalized(*c));
            }
        },
        _ => {},
    }
    assert(evs@ =~= events_of(kind, before, *after, *r));
    evs
}

/// The three chains of a node and the snapshot over them.
pub struct Consensus {
    pub state: Chain,
    pub easy: Chain,
    pub hard: Chain,
    pub pow: PowChainState,
}

impl Consensus {
    pub open spec fn wf(self) -> bool {
        &&& self.state.wf()
        &&& self.easy.wf()
        &&& self.hard.wf()
        &&& self.state.kind == ChainKind::State
        &&& self.easy.kind == ChainKind::Easy
        &&& self.hard.kind == ChainKind::Hard
        &&& self.pow == snapshot(self.hard, self.easy, self.state)
    }

    /// Puts three chains together; they must be of the state, easy and hard
    /// kinds, in that order.
    pub fn new(state: Chain, easy: Chain, hard: Chain) -> (r: Consensus)
        requires
            state.wf(),
            easy.wf(),
            hard.wf(),
            state.kind == ChainKind::State,
            easy.kind == ChainKind::Easy,
            hard.kind == ChainKind::Hard,
        ensures
            r.wf(),
            r.state == state,
            r.easy == easy,
            r.hard == hard,
    {
        let pow = PowChainState::recompute(&hard, &easy, &state);
        Consensus { state, easy, hard, pow }
    }

    /// Submits a block to the chain of `kind`, checked against the chain it
    /// points into, and then derives the snapshot anew.
    pub fn submit_block(&mut self, kind: ChainKind, block: Block, now: u64) -> (r: Result<
        AppendOutcome,
        ChainErr,
    >)
        requires
            old(self).wf(),
        ensures
            final(self).wf(),
            r is Err ==> *final(self) == *old(self),
            kind == ChainKind::State ==> final(self).easy == old(self).easy && final(self).hard
                == old(self).hard && Chain::append_post(
                old(self).state,
                final(self).state,
                block,
                now,
                old(self).hard,
                r,
            ),
            kind == ChainKind::Easy ==> final(self).state == old(self).state && final(self).hard
                == old(self).hard && Chain::append_post(
                old(self).easy,
                final(self).easy,
                block,
                now,
                old(self).state,
                r,
            ),
            kind == ChainKind::Hard ==> final(self).state == old(self).state && final(self).easy
                == old(self).easy && Chain::append_post(
                old(self).hard,
                final(self).hard,
                block,
                now,
                old(self).easy,
                r,
            ),
    {
        let r = match kind {
            ChainKind::State => self.state.append(block, now, &self.hard),
            ChainKind::Easy => self.easy.append(block, now, &self.state),
            ChainKind::Hard => self.hard.append(block, now, &self.easy),
        };
        self.pow = PowChainState::recompute(&self.hard, &self.easy, &self.state);
        r
    }

    /// The chain of `kind`.
    pub open spec fn chain_of(self, kind: ChainKind) -> Chain {
        match kind {
            ChainKind::State => self.state,
            ChainKind::Easy => self.easy,
            ChainKind::Hard => self.hard,
        }
    }

    /// Submits a block as `submit_block` does and returns, with its result,
    /// the events it announces.
    pub fn submit_block_with_events(&mut self, kind: ChainKind, block: Block, now: u64) -> (r: (
        Result<AppendOutcome, ChainErr>,
        Vec<ChainEvent>,
    ))
        requires
            old(self).wf(),
        ensures
            final(self).wf(),
            r.0 is Err ==> *final(self) == *old(self),
            kind == ChainKind::State ==> final(self).easy == old(self).easy && final(self).hard
                == old(self).hard && Chain::append_post(
                old(self).state,
                final(self).state,
                block,
                now,
                old(self).hard,
                r.0,
            ),
            kind == ChainKind::Easy ==> final(self).state == old(self).state && final(self).hard
                == old(self).hard && Chain::append_post(
                old(self).easy,
                final(self).easy,
                block,
                now,
                old(self).state,
                r.0,
            ),
            kind == ChainKind::Hard ==> final(self).state == old(self).state && final(self).easy
                == old(self).easy && Chain::append_post(
                old(self).hard,
                final(self).hard,
                block,
                now,
                old(self).easy,
                r.0,
            ),
            r.1@ == events_of(
                kind,
                old(self).chain_of(kind).tip_entry().block.hash,
                final(self).chain_of(kind),
                r.0,
            ),
    {
        let before = match kind {
            ChainKind::State => self.state.tip_hash(),
            ChainKind::Easy => self.easy.tip_hash(),
            ChainKind::Hard => self.hard.tip_hash(),
        };
        let res = self.submit_block(kind, block, now);
        let evs = match kind {
            ChainKind::State => chain_events(kind, before, &self.state, &res),
            ChainKind::Easy => chain_events(kind, before, &self.easy, &res),
            ChainKind::Hard => chain_events(kind, before, &self.hard, &res),
        };
        (res, evs)
    }

    /// Hash, height and cumulative difficulty of the tip of `kind`.
    pub fn current_tip(&self, kind: ChainKind) -> (r: (H256, u64, u128))
        requires
            self.wf(),
        ensures
            kind == ChainKind::State ==> r == (
                self.state.tip_entry().block.hash,
                self.state.tip_entry().block.height,
                self.state.tip_entry().cumulative,
            ),
            kind == ChainKind::Easy ==> r == (
                self.easy.tip_entry().block.hash,
                self.easy.tip_entry().block.height,
                self.easy.tip_entry().cumulative,
            ),
            kind == ChainKind::Hard ==> r == (
                self.hard.tip_entry().block.hash,
                self.hard.tip_entry().block.height,
                self.hard.tip_entry().cumulative,
            ),
    {
        match kind {
            ChainKind::State => self.state.current_tip(),
            ChainKind::Easy => self.easy.current_tip(),
            ChainKind::Hard => self.hard.current_tip(),
        }
    }

    /// The current snapshot.
    pub fn pow_chain_state(&self) -> (r: PowChainState)
        requires
            self.wf(),
        ensures
            r == snapshot(self.hard, self.easy, self.state),
    {
        self.pow
    }
}

} // verus!
