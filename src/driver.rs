use vstd::prelude::*;

verus! {

/// What a failed write does to the run.
#[derive(Debug, Clone, Copy, PartialEq, Eq, Structural)]
pub enum PersistPolicy {
    /// A failed write ends the run.
    Strict,
    /// A failed pull request write skips the item; a failed review write is passed over.
    Lenient,
}

/// Where the sync of one pull request stands.
#[derive(Debug, Clone, Copy, PartialEq, Eq, Structural)]
pub enum ItemPhase {
    AwaitReviews,
    AwaitPullRequest,
    AwaitReview(usize),
    AwaitCommit,
    Done,
    Skipped,
    Failed,
}

/// What the outside world reports back.
#[derive(Debug, Clone, Copy, PartialEq, Eq, Structural)]
pub enum ItemEvent {
    ReviewsFetched { count: usize, truncated: bool },
    PullRequestWritten { ok: bool },
    ReviewWritten { ok: bool },
    Committed { ok: bool },
}

/// Why an item ends the run.
#[derive(Debug, Clone, Copy, PartialEq, Eq, Structural)]
pub enum ItemFailure {
    ReviewsTruncated,
    PullRequestWrite,
    ReviewWrite,
    Commit,
    UnexpectedEvent,
}

/// What the outside world is asked to do next.
#[derive(Debug, Clone, Copy, PartialEq, Eq, Structural)]
pub enum ItemAction {
    /// Fetch the item's reviews.
    FetchReviews,
    /// Open a transaction and write the pull request.
    WritePullRequest,
    /// Write the review at this index of the fetched reviews.
    WriteReview(usize),
    /// Commit the transaction.
    Commit,
    /// Roll the transaction back and go on with the next item.
    Skip,
    /// Roll back any open transaction and end the run.
    Abort(ItemFailure),
    /// Nothing is left to do for this item.
    Finish,
}

/// After the pull request or review at `next` was written: the next review, or the commit.
pub open spec fn after_write(next: usize, count: usize) -> (ItemPhase, ItemAction) {
    if next < count {
        (ItemPhase::AwaitReview(next), ItemAction::WriteReview(next))
    } else {
        (ItemPhase::AwaitCommit, ItemAction::Commit)
    }
}

/// The next phase and action of an item in `phase`, holding `count` reviews,
/// when `ev` comes in.
pub open spec fn item_transition(policy: PersistPolicy, phase: ItemPhase, count: usize, ev: ItemEvent) -> (
    ItemPhase,
    ItemAction,
) {
    match (phase, ev) {
        (ItemPhase::AwaitReviews, ItemEvent::ReviewsFetched { count: _, truncated }) => if truncated {
            (ItemPhase::Failed, ItemAction::Abort(ItemFailure::ReviewsTruncated))
        } else {
            (ItemPhase::AwaitPullRequest, ItemAction::WritePullRequest)
        },
        (ItemPhase::AwaitPullRequest, ItemEvent::PullRequestWritten { ok }) => if ok {
            after_write(0, count)
        } else if policy == PersistPolicy::Lenient {
            (ItemPhase::Skipped, ItemAction::Skip)
        } else {
            (ItemPhase::Failed, ItemAction::Abort(ItemFailure::PullRequestWrite))
        },
        (ItemPhase::AwaitReview(i), ItemEvent::ReviewWritten { ok }) => if ok || policy
            == PersistPolicy::Lenient {
            if i < count {
                after_write((i + 1) as usize, count)
            } else {
                after_write(count, count)
            }
        } else {
            (ItemPhase::Failed, ItemAction::Abort(ItemFailure::ReviewWrite))
        },
        (ItemPhase::AwaitCommit, ItemEvent::Committed { ok }) => if ok {
            (ItemPhase::Done, ItemAction::Finish)
        } else {
            (ItemPhase::Failed, ItemAction::Abort(ItemFailure::Commit))
        },
        (ItemPhase::Done, _) => (ItemPhase::Done, ItemAction::Finish),
        (ItemPhase::Skipped, _) => (ItemPhase::Skipped, ItemAction::Finish),
        (ItemPhase::Failed, _) => (ItemPhase::Failed, ItemAction::Finish),
        _ => (ItemPhase::Failed, ItemAction::Abort(ItemFailure::UnexpectedEvent)),
    }
}

/// The sync of one selected pull request: fetch its reviews, write it and
/// its reviews in one transaction, commit.
pub struct ItemSync {
    pub policy: PersistPolicy,
    pub phase: ItemPhase,
    pub count: usize,
}

impl ItemSync {
    /// Starts an item; the first action is to fetch its reviews.
    pub fn new(policy: PersistPolicy) -> (r: (Self, ItemAction))
        ensures
            r.0.policy == policy,
            r.0.phase == ItemPhase::AwaitReviews,
            r.0.count == 0,
            r.1 == ItemAction::FetchReviews,
    {
        (ItemSync { policy, phase: ItemPhase::AwaitReviews, count: 0 }, ItemAction::FetchReviews)
    }

    /// Whether the item has come to an end.
    pub fn is_finished(&self) -> (r: bool)
        ensures
            r == (self.phase is Done || self.phase is Skipped || self.phase is Failed),
    {
        match self.phase {
            ItemPhase::Done | ItemPhase::Skipped | ItemPhase::Failed => true,
            _ => false,
        }
    }

    /// Takes in what happened and says what to do next.
    pub fn step(&mut self, ev: ItemEvent) -> (a: ItemAction)
        ensures
            final(self).policy == old(self).policy,
            final(self).count == (match (old(self).phase, ev) {
                (ItemPhase::AwaitReviews, ItemEvent::ReviewsFetched { count, truncated: _ }) => count,
                _ => old(self).count,
            }),
            (final(self).phase, a) == item_transition(
                old(self).policy,
                old(self).phase,
                final(self).count,
                ev,
            ),
    {
        if let (ItemPhase::AwaitReviews, ItemEvent::ReviewsFetched { count, truncated: _ }) = (self.phase, ev) {
            self.count = count;
        }
        let count = self.count;
        let lenient = match self.policy {
            PersistPolicy::Lenient => true,
            PersistPolicy::Strict => false,
        };
        let (phase, action) = match (self.phase, ev) {
            (ItemPhase::AwaitReviews, ItemEvent::ReviewsFetched { count: _, truncated }) => if truncated {
                (ItemPhase::Failed, ItemAction::Abort(ItemFailure::ReviewsTruncated))
            } else {
                (ItemPhase::AwaitPullRequest, ItemAction::WritePullRequest)
            },
            (ItemPhase::AwaitPullRequest, ItemEvent::PullRequestWritten { ok }) => if ok {
                Self::after_write(0, count)
            } else if lenient {
                (ItemPhase::Skipped, ItemAction::Skip)
            } else {
                (ItemPhase::Failed, ItemAction::Abort(ItemFailure::PullRequestWrite))
            },
            (ItemPhase::AwaitReview(i), ItemEvent::ReviewWritten { ok }) => if ok || lenient {
                if i < count {
                    Self::after_write(i + 1, count)
                } else {
                    Self::after_write(count, count)
                }
            } else {
                (ItemPhase::Failed, ItemAction::Abort(ItemFailure::ReviewWrite))
            },
            (ItemPhase::AwaitCommit, ItemEvent::Committed { ok }) => if ok {
                (ItemPhase::Done, ItemAction::Finish)
            } else {
                (ItemPhase::Failed, ItemAction::Abort(ItemFailure::Commit))
            },
            (ItemPhase::Done, _) => (ItemPhase::Done, ItemAction::Finish),
            (ItemPhase::Skipped, _) => (ItemPhase::Skipped, ItemAction::Finish),
            (ItemPhase::Failed, _) => (ItemPhase::Failed, ItemAction::Finish),
            _ => (ItemPhase::Failed, ItemAction::Abort(ItemFailure::UnexpectedEvent)),
        };
        self.phase = phase;
        action
    }

    fn after_write(next: usize, count: usize) -> (r: (ItemPhase, ItemAction))
        ensures
            r == after_write(next, count),
    {
        if next < count {
            (ItemPhase::AwaitReview(next), ItemAction::WriteReview(next))
        } else {
            (ItemPhase::AwaitCommit, ItemAction::Commit)
        }
    }
}

} // verus!
