//! What the session manager settles before the loops start: the network
//! estimates that the configuration gives, and the models of the session.

use vstd::prelude::*;
use crate::ds::{TimeManager, MEGABIT};
use crate::manager::CacheSimulator;

verus! {

/// Latency assumed where the configuration gives none, in milliseconds.
pub const DEFAULT_LATENCY_MS: u64 = 100;

/// Bandwidth assumed where the configuration gives none, in megabits per
/// second.
pub const DEFAULT_BANDWIDTH_MBIT: u64 = 10;

/// The network estimates of a session.
#[derive(Clone, Copy, Debug, PartialEq, Eq, Structural)]
pub struct NetworkSettings {
    /// Round-trip latency, in milliseconds.
    pub latency: u64,
    /// Bandwidth, in bits per second.
    pub bw: u64,
    /// The least time between two blocks, in nanoseconds.
    pub min_wait: u64,
}

/// `mbit` megabits per second in bits per second, capped at `u64::MAX`.
pub open spec fn megabits(mbit: int) -> int {
    if mbit * MEGABIT > u64::MAX {
        u64::MAX as int
    } else {
        mbit * MEGABIT
    }
}

/// The network estimates that a configuration gives. `latency` is in
/// milliseconds and defaults to 100. `bandwidth` is in bits per second and
/// defaults to 10 megabits per second; a `rate` above zero, in megabits per
/// second, takes its place. `min_wait` is in nanoseconds and defaults to
/// zero.
pub fn resolve_network(
    latency: Option<u64>,
    rate: Option<u64>,
    bandwidth: Option<u64>,
    min_wait: Option<u64>,
) -> (r: NetworkSettings)
    ensures
        r.latency == (match latency {
            Some(l) => l,
            None => DEFAULT_LATENCY_MS,
        }),
        r.bw == (match rate {
            Some(rate) if rate > 0 => megabits(rate as int),
            _ => match bandwidth {
                Some(bw) => bw as int,
                None => megabits(DEFAULT_BANDWIDTH_MBIT as int),
            },
        }),
        r.min_wait == (match min_wait {
            Some(w) => w,
            None => 0,
        }),
{
    let latency: u64 = match latency {
        Some(l) => l,
        None => DEFAULT_LATENCY_MS,
    };
    let rate: u64 = match rate {
        Some(r) => r,
        None => 0,
    };
    let mut bw: u64 = match bandwidth {
        Some(bw) => bw,
        None => DEFAULT_BANDWIDTH_MBIT * MEGABIT,
    };
    if rate > 0 {
        bw = if rate > u64::MAX / MEGABIT {
            proof {
                assert(rate * MEGABIT > u64::MAX) by (nonlinear_arith)
                    requires
                        rate > (u64::MAX as int) / (MEGABIT as int),
                        MEGABIT == 1_048_576,
                ;
            }
            u64::MAX
        } else {
            proof {
                assert(rate * MEGABIT <= u64::MAX) by (nonlinear_arith)
                    requires
                        rate <= (u64::MAX as int) / (MEGABIT as int),
                        MEGABIT == 1_048_576,
                ;
            }
            rate * MEGABIT
        };
    }
    let min_wait: u64 = match min_wait {
        Some(w) => w,
        None => 0,
    };
    NetworkSettings { latency, bw, min_wait }
}

/// The size of a block of `block_size` bytes in bits, capped at `u64::MAX`.
pub fn block_bits(block_size: usize) -> (r: u64)
    ensures
        r == (if block_size * 8 > u64::MAX {
            u64::MAX as int
        } else {
            block_size * 8
        }),
{
    if block_size as u64 > u64::MAX / 8 {
        u64::MAX
    } else {
        block_size as u64 * 8
    }
}

/// The models that a session starts with: a time manager with a transfer
/// time of one millisecond, the default latency and the default bandwidth,
/// and an empty cache of `cachesize` slots for `total_queries` queries.
pub fn session_models(cachesize: usize, total_queries: usize) -> (r: (TimeManager, CacheSimulator))
    requires
        total_queries <= isize::MAX,
    ensures
        r.0.transfer_ms() == 1,
        r.0.latency_ms() == DEFAULT_LATENCY_MS,
        r.0.bandwidth() == DEFAULT_BANDWIDTH_MBIT * MEGABIT,
        !r.0.timed(),
        r.1.wf(),
        r.1.is_reset(),
        r.1.cachesize == cachesize,
        r.1.cache_per_query@.len() == total_queries,
{
    let tm = TimeManager::new(
        1,
        DEFAULT_LATENCY_MS as usize,
        DEFAULT_BANDWIDTH_MBIT * MEGABIT,
    );
    let cache_sim = CacheSimulator::new(cachesize, total_queries);
    (tm, cache_sim)
}

/// Applies the network estimates of a session to its time manager.
pub fn apply_network(tm: &mut TimeManager, settings: &NetworkSettings)
    ensures
        final(tm).bandwidth() == settings.bw,
        final(tm).latency_ms() == (if settings.latency > usize::MAX {
            usize::MAX as int
        } else {
            settings.latency as int
        }),
        final(tm).blocksize() == old(tm).blocksize(),
        final(tm).transfer_ms() == crate::ds::transfer_time_ms(
            settings.bw as int,
            old(tm).blocksize() as int,
        ),
        final(tm).timed() == old(tm).timed(),
        final(tm).shared_cell() == old(tm).shared_cell(),
{
    tm.update_bandwidth(settings.bw);
    let latency: usize = if settings.latency > usize::MAX as u64 {
        usize::MAX
    } else {
        settings.latency as usize
    };
    tm.update_latency(latency);
}

} // verus!
