//! Scheduling of the remote calls of a batch under a bound on calls in flight.
//!
//! The caller runs the calls; the progress of a batch decides what happens next.

use vstd::prelude::*;

verus! {

/// Bounds the number of remote calls that run at the same time.
pub struct TranslationBatcher {
    max_concurrent: usize,
}

/// What the caller does next.
#[derive(Debug, Clone, Copy, PartialEq, Eq, Structural)]
pub enum BatchAction {
    /// Start the call for the item with this index.
    Dispatch(usize),
    /// Wait until one of the running calls ends.
    Wait,
    /// All calls have ended well: hand out the results, in the order of the items.
    Finish,
    /// The call for the item with this index has failed: give up with its error.
    Abort(usize),
    /// Items are left and no call may ever start: the bound is zero.
    Blocked,
}

/// What the caller reports.
#[derive(Debug, Clone, Copy, PartialEq, Eq, Structural)]
pub enum BatchEvent {
    /// The call that was to be dispatched has been started.
    Started,
    /// The call for the item with this index has ended.
    Completed { index: usize, succeeded: bool },
}

/// The state of a batch.
pub struct BatchState {
    /// Number of items.
    pub total: nat,
    /// Bound on the calls in flight.
    pub limit: nat,
    /// Number of calls started so far; the next item to start has this index.
    pub dispatched: nat,
    /// Number of calls that run.
    pub in_flight: nat,
    /// Index of the item whose call failed first.
    pub failed: Option<nat>,
}

/// Tells whether the counts of a state fit together.
pub open spec fn consistent(s: BatchState) -> bool {
    s.in_flight <= s.limit && s.in_flight <= s.dispatched <= s.total
}

/// Tells whether the numbers of a state are such as a machine holds: the number of
/// items and the index of a failed item fit in `usize`, so that the index in an action
/// is the index in the state.
pub open spec fn bounded(s: BatchState) -> bool {
    &&& s.total <= usize::MAX
    &&& s.failed matches Some(i) ==> i <= usize::MAX
}

/// Tells whether the next call may start: none has failed, items are left, and fewer
/// calls run than the bound allows.
pub open spec fn may_dispatch(s: BatchState) -> bool {
    s.failed is None && s.dispatched < s.total && s.in_flight < s.limit
}

/// What is to be done in a state: give up after a failure; else start the next call
/// if one may start; else wait if calls run; else finish if all items are done.
pub open spec fn decide(s: BatchState) -> BatchAction {
    match s.failed {
        Some(i) => BatchAction::Abort(i as usize),
        None => if may_dispatch(s) {
            BatchAction::Dispatch(s.dispatched as usize)
        } else if s.in_flight > 0 {
            BatchAction::Wait
        } else if s.dispatched == s.total {
            BatchAction::Finish
        } else {
            BatchAction::Blocked
        },
    }
}

/// The state after an event. A start that was not due and an end without a running
/// call change nothing. Of several failures the first reported is kept.
pub open spec fn after(s: BatchState, event: BatchEvent) -> BatchState {
    match event {
        BatchEvent::Started => if may_dispatch(s) {
            BatchState { dispatched: s.dispatched + 1, in_flight: s.in_flight + 1, ..s }
        } else {
            s
        },
        BatchEvent::Completed { index, succeeded } => if s.in_flight > 0 {
            BatchState {
                in_flight: (s.in_flight - 1) as nat,
                failed: if !succeeded && s.failed is None {
                    Some(index as nat)
                } else {
                    s.failed
                },
                ..s
            }
        } else {
            s
        },
    }
}

/// An event keeps the counts of a state consistent, and no more calls in flight than
/// the bound allows.
pub proof fn lemma_after_consistent(s: BatchState, event: BatchEvent)
    requires
        consistent(s),
    ensures
        consistent(after(s, event)),
        bounded(s) ==> bounded(after(s, event)),
        after(s, event).in_flight <= s.limit,
        after(s, event).total == s.total,
        after(s, event).limit == s.limit,
{
}

/// The progress of one batch.
pub struct BatchProgress {
    total: usize,
    limit: usize,
    dispatched: usize,
    in_flight: usize,
    failed: Option<usize>,
}

impl View for BatchProgress {
    type V = BatchState;

    closed spec fn view(&self) -> BatchState {
        BatchState {
            total: self.total as nat,
            limit: self.limit as nat,
            dispatched: self.dispatched as nat,
            in_flight: self.in_flight as nat,
            failed: match self.failed {
                Some(i) => Some(i as nat),
                None => None,
            },
        }
    }
}

impl BatchProgress {
    #[verifier::type_invariant]
    spec fn counts_fit(self) -> bool {
        self.in_flight <= self.limit && self.in_flight <= self.dispatched <= self.total
    }

    /// What the caller does next.
    pub fn next_action(&self) -> (action: BatchAction)
        ensures
            action == decide(self@),
            consistent(self@),
            bounded(self@),
            self@.total <= usize::MAX,
    {
        proof {
            use_type_invariant(self);
        }
        match self.failed {
            Some(i) => BatchAction::Abort(i),
            None => if self.dispatched < self.total && self.in_flight < self.limit {
                BatchAction::Dispatch(self.dispatched)
            } else if self.in_flight > 0 {
                BatchAction::Wait
            } else if self.dispatched == self.total {
                BatchAction::Finish
            } else {
                BatchAction::Blocked
            },
        }
    }

    /// Takes note of an event and tells what the caller does next.
    pub fn step(&mut self, event: BatchEvent) -> (action: BatchAction)
        ensures
            final(self)@ == after(old(self)@, event),
            action == decide(final(self)@),
            consistent(final(self)@),
            bounded(final(self)@),
            final(self)@.total <= usize::MAX,
    {
        proof {
            use_type_invariant(&*self);
        }
        match event {
            BatchEvent::Started => {
                if self.failed.is_none() && self.dispatched < self.total && self.in_flight
                    < self.limit {
                    let next = BatchProgress {
                        total: self.total,
                        limit: self.limit,
                        dispatched: self.dispatched + 1,
                        in_flight: self.in_flight + 1,
                        failed: self.failed,
                    };
                    *self = next;
                }
            },
            BatchEvent::Completed { index, succeeded } => {
                if self.in_flight > 0 {
                    let failed = if !succeeded && self.failed.is_none() {
                        Some(index)
                    } else {
                        self.failed
                    };
                    let next = BatchProgress {
                        total: self.total,
                        limit: self.limit,
                        dispatched: self.dispatched,
                        in_flight: self.in_flight - 1,
                        failed,
                    };
                    *self = next;
                }
            },
        }
        self.next_action()
    }
}

impl TranslationBatcher {
    /// The bound on the calls in flight.
    pub closed spec fn limit(&self) -> nat {
        self.max_concurrent as nat
    }

    /// A batcher that lets at most `max_concurrent` calls run at the same time.
    pub fn new(max_concurrent: usize) -> (batcher: Self)
        ensures
            batcher.limit() == max_concurrent,
    {
        Self { max_concurrent }
    }

    /// The bound on the calls in flight.
    pub fn max_concurrent(&self) -> (n: usize)
        ensures
            n == self.limit(),
    {
        self.max_concurrent
    }

    /// The progress of a new batch of `total` items: nothing started, nothing failed.
    pub fn begin(&self, total: usize) -> (progress: BatchProgress)
        ensures
            progress@ == (BatchState {
                total: total as nat,
                limit: self.limit(),
                dispatched: 0,
                in_flight: 0,
                failed: None,
            }),
            bounded(progress@),
    {
        BatchProgress {
            total,
            limit: self.max_concurrent,
            dispatched: 0,
            in_flight: 0,
            failed: None,
        }
    }
}

} // verus!
