//! The decisions of the scheduling loop. The loop itself waits on channels
//! and on the application; what it does with what it finds is decided here,
//! one round at a time: wait for a distribution, decode it, take a snapshot
//! of the cache, schedule, publish.

use vstd::prelude::*;
use crate::manager::CacheSimulator;
use crate::arrays::CountArray;

verus! {

/// How long a distribution has to stand before it is scheduled for again,
/// in milliseconds.
pub const TIME_TO_CONVERGE_MS: u128 = 300;

/// The most slots that one run of the scheduler plans for.
pub const BATCH: usize = 100;

/// What a poll of the channel of distributions found.
#[derive(Clone, Copy, Debug, PartialEq, Eq, Structural)]
pub enum DistPoll {
    /// A distribution that was not seen before.
    Fresh,
    /// Nothing.
    Empty,
    /// The channel has no sender any more.
    Disconnected,
}

/// What the scheduling loop does in a round.
#[derive(Clone, Copy, Debug, PartialEq, Eq, Structural)]
pub enum RoundAction {
    /// Leave the loop.
    Stop,
    /// Do nothing in this round.
    Skip,
    /// Decode the distribution that was received and schedule for it.
    Decode,
    /// Schedule again for the distribution that was decoded last.
    Reuse,
}

/// What a round of the scheduling loop does. A raised kill flag and a
/// channel without sender end the loop. A fresh distribution is decoded.
/// Without one, the last distribution is used again if the loop is to
/// continue on its own and more than `time_to_converge` milliseconds have
/// passed since a distribution was last taken up; else the round is skipped.
pub fn next_round(
    kill: bool,
    poll: DistPoll,
    continues: bool,
    since_last_ms: u128,
    time_to_converge: u128,
) -> (r: RoundAction)
    ensures
        r == (if kill {
            RoundAction::Stop
        } else {
            match poll {
                DistPoll::Fresh => RoundAction::Decode,
                DistPoll::Disconnected => RoundAction::Stop,
                DistPoll::Empty => if continues && since_last_ms > time_to_converge {
                    RoundAction::Reuse
                } else {
                    RoundAction::Skip
                },
            }
        }),
{
    if kill {
        return RoundAction::Stop;
    }
    match poll {
        DistPoll::Fresh => RoundAction::Decode,
        DistPoll::Disconnected => RoundAction::Stop,
        DistPoll::Empty => {
            if continues && since_last_ms > time_to_converge {
                RoundAction::Reuse
            } else {
                RoundAction::Skip
            }
        },
    }
}

/// The snapshot of the cache that a round schedules for: the head and the
/// blocks of each query. A cache whose application has changed state is
/// emptied first.
pub fn snapshot_cache(cache: &mut CacheSimulator, state_changed: bool) -> (r: (usize, CountArray))
    requires
        old(cache).wf(),
    ensures
        final(cache).wf(),
        final(cache).cachesize == old(cache).cachesize,
        final(cache).cache_per_query@.len() == old(cache).cache_per_query@.len(),
        state_changed ==> final(cache).is_reset(),
        !state_changed ==> final(cache).head == old(cache).head && final(cache).cache@ == old(cache).cache@ && final(cache).cache_per_query@ == old(cache).cache_per_query@,
        r.0 == final(cache).head,
        r.1@ == final(cache).cache_per_query@,
{
    if state_changed {
        cache.reset();
    }
    cache.get_state()
}

/// What becomes of a plan.
#[derive(Clone, Copy, Debug, PartialEq, Eq, Structural)]
pub enum PlanAction {
    /// The plan is empty: nothing is published, and the next round tries
    /// again.
    Retry,
    /// The plan goes to the sender.
    Publish,
}

/// What becomes of the plan that a round has made.
pub fn after_schedule(plan: &Vec<usize>) -> (r: PlanAction)
    ensures
        r == (if plan@.len() == 0 {
            PlanAction::Retry
        } else {
            PlanAction::Publish
        }),
{
    if plan.len() == 0 {
        PlanAction::Retry
    } else {
        PlanAction::Publish
    }
}

/// A channel with room for one value, in which the newest value wins: a
/// value that arrives while another waits takes its place.
pub struct Mailbox<T> {
    slot: Option<T>,
}

impl<T> Mailbox<T> {
    /// What waits in the mailbox.
    pub closed spec fn waiting(&self) -> Option<T> {
        self.slot
    }

    /// An empty mailbox.
    pub fn new() -> (r: Self)
        ensures
            r.waiting().is_none(),
    {
        Mailbox { slot: None }
    }

    /// Puts `value` into the mailbox and returns what it displaces.
    pub fn post(&mut self, value: T) -> (displaced: Option<T>)
        ensures
            final(self).waiting() == Some(value),
            displaced == old(self).waiting(),
    {
        let mut incoming: Option<T> = Some(value);
        std::mem::swap(&mut self.slot, &mut incoming);
        incoming
    }

    /// Takes what waits in the mailbox, leaving it empty.
    pub fn take(&mut self) -> (r: Option<T>)
        ensures
            r == old(self).waiting(),
            final(self).waiting().is_none(),
    {
        let mut taken: Option<T> = None;
        std::mem::swap(&mut self.slot, &mut taken);
        taken
    }
}

} // verus!
