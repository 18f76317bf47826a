//! What a caller learns when it polls a search that runs elsewhere.
//!
//! The search stores the number of the row in work in a shared counter and hands its result
//! over once. The poller keeps, between polls, only whether a search is running and how many
//! rows it has; each poll turns the counter and the result, if it has arrived, into a report.

use vstd::prelude::*;

verus! {

/// The report of one poll.
#[derive(Debug)]
pub enum AlgorithmProgress {
    /// No search was started, or its result was already handed out.
    NoAlgorithmRunning,
    /// The search is filling row `progress` of `out_of`.
    InProgress { progress: usize, out_of: usize },
    /// The search has ended with this result.
    Done(Option<Vec<i64>>),
}

/// What the poller keeps between polls.
#[derive(Clone, Copy, Debug)]
pub enum Poller {
    /// No search is running.
    Idle,
    /// A search over `out_of` entries is running.
    Running { out_of: usize },
}

/// Answers one poll. `finished` is the result of the search if it has arrived, `progress`
/// the counter as last read.
///
/// Without a search the report says so. With a result the report carries it and the poller
/// goes idle, so the result is handed out once. Otherwise the report gives the counter and
/// the number of rows, and the poller stays as it is.
pub fn check_algorithm(state: Poller, finished: Option<Option<Vec<i64>>>, progress: usize) -> (polled:
    (Poller, AlgorithmProgress))
    ensures
        match state {
            Poller::Idle => polled.0 is Idle && polled.1 is NoAlgorithmRunning,
            Poller::Running { out_of } => match finished {
                Some(output) => polled.0 is Idle && polled.1 == AlgorithmProgress::Done(output),
                None => polled.0 == state && polled.1 == (AlgorithmProgress::InProgress {
                    progress,
                    out_of,
                }),
            },
        },
{
    match state {
        Poller::Idle => (Poller::Idle, AlgorithmProgress::NoAlgorithmRunning),
        Poller::Running { out_of } => match finished {
            Some(output) => (Poller::Idle, AlgorithmProgress::Done(output)),
            None => (state, AlgorithmProgress::InProgress { progress, out_of }),
        },
    }
}

} // verus!
