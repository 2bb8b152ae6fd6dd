//! The decisions of one block step: which block comes next, and in what order
//! the ledger batch and the checkpoint are written. The caller performs each
//! action and reports whether it succeeded.
//!
//! The ledger and the checkpoint are two stores without a shared transaction:
//! a crash between the two writes means the block is processed again, so
//! delivery to the ledger is at least once.

use vstd::prelude::*;

verus! {

/// The block that follows the last saved one.
pub fn target_height(last_saved: u64) -> (r: u64)
    requires
        last_saved < u64::MAX,
    ensures
        r == last_saved + 1,
{
    last_saved + 1
}

/// The last processed block as stored, 0 when nothing was stored yet.
pub fn last_processed_block(stored: Option<u64>) -> (r: u64)
    ensures
        r == match stored {
            Some(h) => h,
            None => 0,
        },
{
    match stored {
        Some(h) => h,
        None => 0,
    }
}

#[derive(Debug, Clone, Copy, PartialEq, Eq, Structural)]
pub enum CommitStage {
    AwaitLedger,
    AwaitCheckpoint,
    Done,
    Failed,
}

/// What the caller is to do next.
#[derive(Debug, Clone, Copy, PartialEq, Eq, Structural)]
pub enum CommitAction {
    /// Append the block's transfers to the ledger as one batch.
    AppendBatch,
    /// Store this height as the network's checkpoint.
    SetCheckpoint(u64),
    /// The block is committed.
    Finish,
    /// Give up on this block; the checkpoint was not advanced.
    Abort,
}

/// The commit of one block's results.
#[derive(Debug, Clone, Copy, PartialEq, Eq, Structural)]
pub struct BlockCommit {
    pub target: u64,
    pub stage: CommitStage,
}

/// The first stage and action for block `target`.
pub open spec fn commit_start(target: u64, has_transfers: bool) -> (BlockCommit, CommitAction) {
    if has_transfers {
        (BlockCommit { target, stage: CommitStage::AwaitLedger }, CommitAction::AppendBatch)
    } else {
        (
            BlockCommit { target, stage: CommitStage::AwaitCheckpoint },
            CommitAction::SetCheckpoint(target),
        )
    }
}

/// The next stage and action once the pending action reported `ok`.
pub open spec fn commit_next(c: BlockCommit, ok: bool) -> (BlockCommit, CommitAction) {
    match c.stage {
        CommitStage::AwaitLedger => if ok {
            (
                BlockCommit { target: c.target, stage: CommitStage::AwaitCheckpoint },
                CommitAction::SetCheckpoint(c.target),
            )
        } else {
            (BlockCommit { target: c.target, stage: CommitStage::Failed }, CommitAction::Abort)
        },
        CommitStage::AwaitCheckpoint => if ok {
            (BlockCommit { target: c.target, stage: CommitStage::Done }, CommitAction::Finish)
        } else {
            (BlockCommit { target: c.target, stage: CommitStage::Failed }, CommitAction::Abort)
        },
        CommitStage::Done => (c, CommitAction::Finish),
        CommitStage::Failed => (c, CommitAction::Abort),
    }
}

impl BlockCommit {
    /// Starts the commit of block `target` with `transfer_count` transfers:
    /// the ledger batch comes first when there is one, the checkpoint always.
    pub fn begin(target: u64, transfer_count: usize) -> (r: (BlockCommit, CommitAction))
        ensures
            r == commit_start(target, transfer_count > 0),
    {
        if transfer_count > 0 {
            (BlockCommit { target, stage: CommitStage::AwaitLedger }, CommitAction::AppendBatch)
        } else {
            (
                BlockCommit { target, stage: CommitStage::AwaitCheckpoint },
                CommitAction::SetCheckpoint(target),
            )
        }
    }

    /// Records whether the pending action succeeded and returns the next one.
    pub fn report(&mut self, ok: bool) -> (r: CommitAction)
        ensures
            (*final(self), r) == commit_next(*old(self), ok),
    {
        match self.stage {
            CommitStage::AwaitLedger => {
                if ok {
                    self.stage = CommitStage::AwaitCheckpoint;
                    CommitAction::SetCheckpoint(self.target)
                } else {
                    self.stage = CommitStage::Failed;
                    CommitAction::Abort
                }
            },
            CommitStage::AwaitCheckpoint => {
                if ok {
                    self.stage = CommitStage::Done;
                    CommitAction::Finish
                } else {
                    self.stage = CommitStage::Failed;
                    CommitAction::Abort
                }
            },
            CommitStage::Done => CommitAction::Finish,
            CommitStage::Failed => CommitAction::Abort,
        }
    }
}

/// The stored checkpoint after the caller performed `action` and the actions
/// that follow it, with the outcomes `results`, starting from `stored`.
pub open spec fn checkpoint_after(
    c: BlockCommit,
    action: CommitAction,
    results: Seq<bool>,
    stored: Option<u64>,
) -> Option<u64>
    decreases results.len(),
{
    if results.len() == 0 {
        stored
    } else {
        let ok = results[0];
        let now = match action {
            CommitAction::SetCheckpoint(h) => if ok {
                Some(h)
            } else {
                stored
            },
            _ => stored,
        };
        let (c2, a2) = commit_next(c, ok);
        checkpoint_after(c2, a2, results.drop_first(), now)
    }
}

proof fn lemma_failed_keeps(c: BlockCommit, results: Seq<bool>, stored: Option<u64>)
    requires
        c.stage == CommitStage::Failed,
    ensures
        checkpoint_after(c, CommitAction::Abort, results, stored) == stored,
    decreases results.len(),
{
    if results.len() > 0 {
        lemma_failed_keeps(c, results.drop_first(), stored);
    }
}

/// A block with transfers advances the checkpoint only after its ledger batch
/// was written: when the batch write fails, the checkpoint stays what it was
/// (absent included), whatever the caller does afterwards; when the batch and
/// then the checkpoint write succeed, it becomes the block's height.
pub proof fn law_checkpoint_follows_ledger(target: u64, results: Seq<bool>, stored: Option<u64>)
    requires
        results.len() > 0,
    ensures
        !results[0] ==> {
            let (c, a) = commit_start(target, true);
            checkpoint_after(c, a, results, stored) == stored
        },
        results =~= seq![true, true] ==> {
            let (c, a) = commit_start(target, true);
            checkpoint_after(c, a, results, stored) == Some(target)
        },
{
    let (c, a) = commit_start(target, true);
    if !results[0] {
        let (c2, a2) = commit_next(c, false);
        lemma_failed_keeps(c2, results.drop_first(), stored);
    }
    if results =~= seq![true, true] {
        let (c2, a2) = commit_next(c, true);
        let rest = results.drop_first();
        assert(rest.drop_first().len() == 0);
        let (c3, a3) = commit_next(c2, true);
        assert(checkpoint_after(c3, a3, rest.drop_first(), Some(target)) == Some(target));
        assert(rest[0]);
        assert(a2 == CommitAction::SetCheckpoint(target));
        assert(checkpoint_after(c2, a2, rest, stored) == Some(target));
        assert(checkpoint_after(c, a, results, stored) == checkpoint_after(c2, a2, rest, stored));
    }
}

} // verus!
