//! The decisions of the sender loop. The loop itself waits on the channel of
//! plans, on the application and on the socket; here is decided which query
//! is served next, what the client's cache holds after a block was sent,
//! whether the session goes on after a send, and how long to wait before
//! the next block.

use vstd::prelude::*;
use crate::manager::CacheSimulator;

verus! {

/// The plan that is being sent, and how far the sender has come in it.
#[derive(Clone, Debug)]
pub struct PlanCursor {
    schedule: Vec<usize>,
    next: usize,
}

impl PlanCursor {
    /// The part of the plan that is still to be sent.
    pub closed spec fn remaining(&self) -> Seq<usize> {
        self.schedule@.skip(self.next as int)
    }

    /// The cursor is within its plan.
    pub closed spec fn wf(&self) -> bool {
        self.next <= self.schedule@.len()
    }

    /// A cursor over an empty plan.
    pub fn new() -> (r: Self)
        ensures
            r.wf(),
            r.remaining() == Seq::<usize>::empty(),
    {
        let r = PlanCursor { schedule: Vec::new(), next: 0 };
        assert(r.schedule@.skip(0) =~= Seq::<usize>::empty());
        r
    }

    /// Takes up a new plan in place of the one that was being sent.
    pub fn replace(&mut self, schedule: Vec<usize>)
        ensures
            final(self).wf(),
            final(self).remaining() == schedule@,
    {
        self.schedule = schedule;
        self.next = 0;
        assert(self.schedule@.skip(0) =~= self.schedule@);
    }

    /// The query to serve next, if the plan has one left.
    pub fn next_query(&mut self) -> (r: Option<usize>)
        requires
            old(self).wf(),
        ensures
            final(self).wf(),
            old(self).remaining().len() == 0 ==> r.is_none() && final(self).remaining() == old(self).remaining(),
            old(self).remaining().len() > 0 ==> r == Some(old(self).remaining()[0]) && final(self).remaining() == old(self).remaining().drop_first(),
    {
        if self.next < self.schedule.len() {
            let qid: usize = self.schedule[self.next];
            self.next += 1;
            assert(self.schedule@.skip(self.next as int) =~= self.schedule@.skip(
                self.next - 1,
            ).drop_first());
            Some(qid)
        } else {
            None
        }
    }
}

/// What the sender does after an attempt to send a block.
#[derive(Clone, Copy, Debug, PartialEq, Eq, Structural)]
pub enum SendAction {
    /// The block went out: go on with the plan.
    Continue,
    /// The block could not be sent: the session is over, and both loops
    /// stop.
    Stop,
}

/// Decides how the sender goes on after an attempt to send a block: a
/// failed send ends the session.
pub fn after_send(sent: bool) -> (r: SendAction)
    ensures
        r == (if sent {
            SendAction::Continue
        } else {
            SendAction::Stop
        }),
{
    if sent {
        SendAction::Continue
    } else {
        SendAction::Stop
    }
}

/// The cache can take a block of `qid`: it has slots, and knows the query.
pub open spec fn can_record(cache: &CacheSimulator, qid: usize) -> bool {
    cache.cachesize > 0 && qid < cache.cache_per_query@.len() && qid <= i32::MAX
}

/// Brings the model of the client's cache up to date after an attempt to
/// send a block of `qid`: a block that went out is in the client's cache.
/// Returns whether the model took the block.
pub fn record_sent(cache: &mut CacheSimulator, qid: usize, sent: bool) -> (recorded: bool)
    requires
        old(cache).wf(),
    ensures
        final(cache).wf(),
        recorded == (sent && can_record(old(cache), qid)),
        final(cache).cachesize == old(cache).cachesize,
        final(cache).cache_per_query@.len() == old(cache).cache_per_query@.len(),
        !recorded ==> final(cache).head == old(cache).head && final(cache).cache@ == old(cache).cache@ && final(cache).cache_per_query@ == old(cache).cache_per_query@,
        recorded && old(cache).head + 1 >= old(cache).cachesize ==> final(cache).is_reset(),
        recorded && old(cache).head + 1 < old(cache).cachesize ==> final(cache).head == old(cache).head + 1 && final(cache).cache@ == old(cache).cache@.update(
            old(cache).head as int,
            qid as i32,
        ),
{
    if sent && cache.cachesize > 0 && qid < cache.cache_per_query.len() && qid <= i32::MAX as usize {
        cache.add(qid);
        true
    } else {
        false
    }
}

/// The time that a block of `size` bits takes at `bw` bits per second, in
/// nanoseconds, rounded up. Without bandwidth a block never leaves; the time
/// is capped at `u64::MAX`.
pub open spec fn sending_time_ns(bw: int, size: int) -> int {
    if bw <= 0 {
        if size > 0 {
            u64::MAX as int
        } else {
            0
        }
    } else {
        let t = (size * 1_000_000_000 + bw - 1) / bw;
        if t > u64::MAX {
            u64::MAX as int
        } else {
            t
        }
    }
}

/// How long the sender waits before the next block, in nanoseconds: what is
/// left of the sending time of the block after the `elapsed_ns` that have
/// passed, and `min_wait` at least.
pub open spec fn pacing_wait(bw: int, size: int, elapsed_ns: int, min_wait: int) -> int {
    let left = if sending_time_ns(bw, size) > elapsed_ns {
        sending_time_ns(bw, size) - elapsed_ns
    } else {
        0
    };
    if left > min_wait {
        left
    } else {
        min_wait
    }
}

/// How long the sender waits before the next block, so that blocks leave at
/// the rate that the bandwidth allows.
pub fn pacing_wait_ns(bw: u64, size_bits: u64, elapsed_ns: u128, min_wait: u64) -> (wait: u64)
    ensures
        wait == pacing_wait(bw as int, size_bits as int, elapsed_ns as int, min_wait as int),
        wait >= min_wait,
{
    let sending: u64 = if bw == 0 {
        if size_bits > 0 {
            u64::MAX
        } else {
            0
        }
    } else {
        let t: u128 = (size_bits as u128 * 1_000_000_000 + bw as u128 - 1) / (bw as u128);
        if t > u64::MAX as u128 {
            u64::MAX
        } else {
            t as u64
        }
    };
    let left: u64 = if sending as u128 > elapsed_ns {
        (sending as u128 - elapsed_ns) as u64
    } else {
        0
    };
    if left > min_wait {
        left
    } else {
        min_wait
    }
}

} // verus!
