//! What ties the phases of a run together: the configuration, the ledger of
//! task outcomes, and the decision taken at each poll of a running phase.

use vstd::prelude::*;

verus! {

/// Why a run failed.
#[derive(Debug, PartialEq, Eq)]
pub enum DedupError {
    /// The number of splits is zero.
    ZeroSplits,
    /// The number of threads is zero.
    ZeroThreads,
    /// Splits times threads does not fit in a `usize`.
    TooManyParts,
    /// The caller asked the run to stop.
    Interrupted,
    /// A file could not be created, opened, read or written.
    Io(String),
}

/// A checked run configuration: both counts are positive and their product,
/// the number of buckets, fits in a `usize`.
pub struct Config {
    number_of_splits: usize,
    number_of_threads: usize,
    num_parts: usize,
}

impl Config {
    /// The number of splits per thread.
    pub closed spec fn splits(&self) -> nat {
        self.number_of_splits as nat
    }

    /// The number of worker threads of each phase.
    pub closed spec fn threads(&self) -> nat {
        self.number_of_threads as nat
    }

    /// The number of buckets.
    pub closed spec fn parts(&self) -> nat {
        self.num_parts as nat
    }

    /// Both counts are positive and the bucket count is their product.
    pub closed spec fn wf(&self) -> bool {
        &&& self.number_of_splits > 0
        &&& self.number_of_threads > 0
        &&& self.num_parts == self.number_of_splits * self.number_of_threads
    }

    /// Checks a configuration before any task starts.
    pub fn new(number_of_splits: usize, number_of_threads: usize) -> (r: Result<Config, DedupError>)
        ensures
            number_of_splits == 0 ==> r == Err::<Config, DedupError>(DedupError::ZeroSplits),
            number_of_splits > 0 && number_of_threads == 0 ==> r == Err::<Config, DedupError>(
                DedupError::ZeroThreads,
            ),
            number_of_splits > 0 && number_of_threads > 0 && number_of_splits * number_of_threads
                > usize::MAX ==> r == Err::<Config, DedupError>(DedupError::TooManyParts),
            number_of_splits > 0 && number_of_threads > 0 && number_of_splits * number_of_threads
                <= usize::MAX ==> match r {
                Ok(c) => {
                    &&& c.wf()
                    &&& c.splits() == number_of_splits
                    &&& c.threads() == number_of_threads
                    &&& c.parts() == number_of_splits * number_of_threads
                },
                Err(_) => false,
            },
    {
        if number_of_splits == 0 {
            return Err(DedupError::ZeroSplits);
        }
        if number_of_threads == 0 {
            return Err(DedupError::ZeroThreads);
        }
        match number_of_splits.checked_mul(number_of_threads) {
            Some(num_parts) => Ok(Config { number_of_splits, number_of_threads, num_parts }),
            None => Err(DedupError::TooManyParts),
        }
    }

    /// The number of splits per thread.
    pub fn number_of_splits(&self) -> (r: usize)
        ensures
            r == self.splits(),
    {
        self.number_of_splits
    }

    /// The number of worker threads of each phase.
    pub fn number_of_threads(&self) -> (r: usize)
        ensures
            r == self.threads(),
    {
        self.number_of_threads
    }

    /// The number of buckets.
    pub fn num_parts(&self) -> (r: usize)
        requires
            self.wf(),
        ensures
            r == self.parts(),
            r > 0,
    {
        proof {
            let (a, b) = (self.number_of_splits as int, self.number_of_threads as int);
            assert(a > 0 && b > 0 ==> a * b > 0) by (nonlinear_arith);
        }
        self.num_parts
    }
}

/// The outcome of a sequence of task outcomes: the first failure, or success
/// when there is none.
pub open spec fn first_failure(s: Seq<Result<(), DedupError>>) -> Result<(), DedupError>
    decreases s.len(),
{
    if s.len() == 0 {
        Ok(())
    } else if s[0] is Err {
        s[0]
    } else {
        first_failure(s.drop_first())
    }
}

/// The outcomes of the tasks of a run, in the order in which they were
/// recorded.
pub struct Ledger {
    outcomes: Vec<Result<(), DedupError>>,
}

impl Ledger {
    /// The outcomes recorded so far.
    pub closed spec fn view(&self) -> Seq<Result<(), DedupError>> {
        self.outcomes@
    }

    /// An empty ledger.
    pub fn new() -> (r: Ledger)
        ensures
            r@ == Seq::<Result<(), DedupError>>::empty(),
    {
        Ledger { outcomes: Vec::new() }
    }

    /// Records the outcome of one task.
    pub fn record(&mut self, outcome: Result<(), DedupError>)
        ensures
            final(self)@ == old(self)@.push(outcome),
    {
        self.outcomes.push(outcome);
    }

    /// The outcome of a phase: an interrupt comes first; otherwise the first
    /// recorded failure, or success when every task succeeded.
    pub fn settle(self, interrupted: bool) -> (r: Result<(), DedupError>)
        ensures
            interrupted ==> r == Err::<(), DedupError>(DedupError::Interrupted),
            !interrupted ==> r == first_failure(self@),
    {
        if interrupted {
            return Err(DedupError::Interrupted);
        }
        let ghost s = self@;
        let mut outcomes = self.outcomes;
        let mut i: usize = 0;
        assert(s.skip(0) =~= s);
        while i < outcomes.len() && outcomes[i].is_ok()
            invariant
                outcomes@ == s,
                i <= s.len(),
                first_failure(s) == first_failure(s.skip(i as int)),
            decreases s.len() - i,
        {
            assert(s.skip(i as int).drop_first() =~= s.skip(i as int + 1));
            i = i + 1;
        }
        if i < outcomes.len() {
            outcomes.remove(i)
        } else {
            Ok(())
        }
    }
}

/// What a phase's supervisor does at one poll.
#[derive(Debug, Clone, Copy, PartialEq, Eq, Structural)]
pub enum PollAction {
    /// Every task has finished: wait for the workers and settle.
    Finished,
    /// Set the cancellation token, stop polling and wait for the workers.
    Cancel,
    /// Sleep until the next poll.
    Wait,
}

/// The decision at one poll, from the number of tasks still running and
/// whether the caller asked the run to stop.
pub fn poll_decision(remaining: usize, interrupt_requested: bool) -> (r: PollAction)
    ensures
        remaining == 0 ==> r == PollAction::Finished,
        remaining > 0 && interrupt_requested ==> r == PollAction::Cancel,
        remaining > 0 && !interrupt_requested ==> r == PollAction::Wait,
{
    if remaining == 0 {
        PollAction::Finished
    } else if interrupt_requested {
        PollAction::Cancel
    } else {
        PollAction::Wait
    }
}

} // verus!
