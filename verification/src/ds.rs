//! Data shared between the parts of the server: the blocks on their way to
//! the client, and the time manager that turns a slot of a plan into a time
//! at the client.
//!
//! Sizes in megabits and bandwidths in megabits per second are fixed-point
//! integers with scale [`MEGABIT`], so that one unit is a bit, or a bit per
//! second.

use vstd::prelude::*;
use crossbeam_utils::atomic::AtomicCell;
use std::sync::Arc;
use std::time::{Duration, Instant};

verus! {

/// Fixed-point scale of sizes and bandwidths: `MEGABIT` stands for one
/// megabit, or one megabit per second.
pub const MEGABIT: u64 = 1_048_576;

/// `crossbeam_utils::atomic::AtomicCell`: a cell that threads share. The
/// library carries it and never reads it.
#[verifier::external_type_specification]
#[verifier::external_body]
#[verifier::reject_recursive_types(T)]
pub struct ExAtomicCell<T>(AtomicCell<T>);

/// `std::time::Instant`: a reading of the clock, kept as it is.
#[verifier::external_type_specification]
#[verifier::external_body]
pub struct ExInstant(Instant);

/// `AtomicCell::new`: a cell that holds `val`. A cell is read and written by
/// several threads, so nothing is stated of what it holds later.
pub assume_specification<T>[ AtomicCell::<T>::new ](val: T) -> (c: AtomicCell<T>)
;

/// `AtomicCell::store`: stores `val` into the cell.
pub assume_specification<T>[ AtomicCell::<T>::store ](c: &AtomicCell<T>, val: T)
;

/// `Arc::clone`: another pointer to the same allocation, so the handle that
/// comes back is to the very cell that `c` is a handle to.
#[verifier::external_body]
fn share_cell(c: &Arc<AtomicCell<u64>>) -> (r: Arc<AtomicCell<u64>>)
    ensures
        r == *c,
{
    Arc::clone(c)
}

/// `Instant::now`: the present instant, which differs from call to call.
#[verifier::external_body]
pub(crate) fn instant_now() -> (t: Instant) {
    Instant::now()
}

/// `Instant::elapsed`: the time that has passed since `t`, which differs
/// from call to call.
#[verifier::external_body]
fn elapsed_since(t: &Instant) -> (d: Duration) {
    t.elapsed()
}

/// `Duration::as_millis`: the whole milliseconds of a duration. Durations
/// are not read otherwise, so nothing is stated of the number.
#[verifier::external_body]
fn whole_millis(d: &Duration) -> (ms: u128) {
    d.as_millis()
}

/// `serde_json::Value`: a JSON value, carried through the library unread.
#[verifier::external_type_specification]
#[verifier::external_body]
pub struct ExValue(serde_json::Value);

/// `Value::clone`. A JSON value is carried through the library unread, so
/// nothing is stated of the copy.
pub assume_specification[ <serde_json::Value as Clone>::clone ](v: &serde_json::Value) -> (r:
    serde_json::Value)
;

/// What the client predicts of its user: the name of a model and the
/// parameters of the model, which the application decodes.
#[derive(Clone, Debug)]
pub struct PredictorState {
    pub model: String,
    pub data: serde_json::Value,
}

impl PredictorState {
    /// A prediction by the model `model` with the parameters `data`.
    pub fn new(model: &str, data: serde_json::Value) -> (r: Self)
        ensures
            r.model@ == model@,
            r.data == data,
    {
        PredictorState { model: model.to_owned(), data }
    }
}

/// What a client asks for when it opens a session: an application, the size
/// of its cache in blocks, and what the application needs to start.
#[derive(Clone, Debug)]
pub struct AppState {
    pub appname: crate::apps::AppType,
    pub cachesize: usize,
    pub state: serde_json::Value,
}

/// What the sender hands to the socket: a block to transmit, or the request
/// to close the connection.
#[derive(Debug)]
pub enum StreamBlock {
    Binary(Vec<u8>),
    Stop,
}

/// The time to transfer a block of `size` bits at `bw` bits per second, in
/// milliseconds, rounded up. Without bandwidth a block never arrives; the
/// time is capped at `usize::MAX`.
pub open spec fn transfer_time_ms(bw: int, size: int) -> int {
    if bw <= 0 {
        if size > 0 {
            usize::MAX as int
        } else {
            0
        }
    } else {
        let t = (size * 1000 + bw - 1) / bw;
        if t > usize::MAX {
            usize::MAX as int
        } else {
            t
        }
    }
}

/// The time at the client, in milliseconds from the reference instant of the
/// distribution, when the block of `slot` arrives: half the round trip, the
/// time that has passed, and one transfer per slot before it.
pub open spec fn client_delta(latency: int, elapsed: int, slot: int, transfer: int) -> int {
    latency / 2 + elapsed + slot * transfer
}

/// At slot zero the time at the client is half the round trip plus the time
/// that has passed; with a positive transfer time it grows strictly from
/// slot to slot.
pub proof fn lemma_client_delta_increasing(
    latency: int,
    elapsed: int,
    transfer: int,
    slot_a: int,
    slot_b: int,
)
    requires
        transfer > 0,
        slot_a < slot_b,
    ensures
        client_delta(latency, elapsed, 0, transfer) == latency / 2 + elapsed,
        client_delta(latency, elapsed, slot_a, transfer) < client_delta(
            latency,
            elapsed,
            slot_b,
            transfer,
        ),
{
    assert(slot_a * transfer < slot_b * transfer) by (nonlinear_arith)
        requires
            transfer > 0,
            slot_a < slot_b,
    ;
}

/// The time at the client does not fall from slot to slot.
pub proof fn lemma_client_delta_ordered(
    latency: int,
    elapsed: int,
    transfer: int,
    slot_a: int,
    slot_b: int,
)
    requires
        transfer >= 0,
        slot_a <= slot_b,
    ensures
        client_delta(latency, elapsed, slot_a, transfer) <= client_delta(
            latency,
            elapsed,
            slot_b,
            transfer,
        ),
{
    assert(slot_a * transfer <= slot_b * transfer) by (nonlinear_arith)
        requires
            transfer >= 0,
            slot_a <= slot_b,
    ;
}

/// Estimates of the network, and the bridge from the slots of a plan to
/// milliseconds at the client.
pub struct TimeManager {
    /// Time to transfer one block, in milliseconds.
    time_block_transfer_ms: usize,
    /// Round-trip latency, in milliseconds.
    latency: usize,
    /// Bandwidth, in bits per second.
    bw: u64,
    /// The bandwidth again, for readers that do not hold the manager.
    bw_cell: Arc<AtomicCell<u64>>,
    /// Size of a block, in bits.
    blocksize_megabits: u64,
    /// When the distribution in use was received.
    time: Option<Instant>,
}

impl TimeManager {
    /// The time to transfer one block, in milliseconds.
    pub closed spec fn transfer_ms(&self) -> usize {
        self.time_block_transfer_ms
    }

    /// The round-trip latency, in milliseconds.
    pub closed spec fn latency_ms(&self) -> usize {
        self.latency
    }

    /// The bandwidth, in bits per second.
    pub closed spec fn bandwidth(&self) -> u64 {
        self.bw
    }

    /// The size of a block, in bits.
    pub closed spec fn blocksize(&self) -> u64 {
        self.blocksize_megabits
    }

    /// A reference instant has been set.
    pub closed spec fn timed(&self) -> bool {
        self.time.is_some()
    }

    /// The reference instant, if one has been set.
    pub closed spec fn reference(&self) -> Option<Instant> {
        self.time
    }

    /// The cell in which the manager mirrors its bandwidth for readers that
    /// do not hold the manager.
    pub closed spec fn shared_cell(&self) -> Arc<AtomicCell<u64>> {
        self.bw_cell
    }

    /// A manager with the given estimates, a block size of zero and no
    /// reference instant.
    pub fn new(time_block_transfer_ms: usize, latency: usize, bw: u64) -> (r: Self)
        ensures
            r.transfer_ms() == time_block_transfer_ms,
            r.latency_ms() == latency,
            r.bandwidth() == bw,
            r.blocksize() == 0,
            !r.timed(),
            r.reference().is_none(),
    {
        let bw_cell = Arc::new(AtomicCell::new(bw));
        TimeManager {
            time_block_transfer_ms,
            latency,
            bw,
            bw_cell,
            blocksize_megabits: 0,
            time: None,
        }
    }

    /// Sets the time to transfer one block to that of `blocksize_megabits`
    /// bits at `bw` bits per second.
    pub fn update_transfer_time(&mut self, bw: u64, blocksize_megabits: u64)
        ensures
            final(self).transfer_ms() == transfer_time_ms(bw as int, blocksize_megabits as int),
            final(self).latency_ms() == old(self).latency_ms(),
            final(self).bandwidth() == old(self).bandwidth(),
            final(self).blocksize() == old(self).blocksize(),
            final(self).timed() == old(self).timed(),
            final(self).reference() == old(self).reference(),
            final(self).shared_cell() == old(self).shared_cell(),
    {
        if bw == 0 {
            self.time_block_transfer_ms = if blocksize_megabits > 0 {
                usize::MAX
            } else {
                0
            };
        } else {
            let t: u128 = (blocksize_megabits as u128 * 1000 + bw as u128 - 1) / (bw as u128);
            self.time_block_transfer_ms = if t > usize::MAX as u128 {
                usize::MAX
            } else {
                t as usize
            };
        }
    }

    /// The time at the client when the block of `slot` arrives, given that
    /// `elapsed_ms` milliseconds have passed since the reference instant.
    /// `None` where the time does not fit in a machine word.
    pub fn delta_after(&self, elapsed_ms: usize, slot: usize) -> (r: Option<usize>)
        ensures
            r == (if client_delta(
                self.latency_ms() as int,
                elapsed_ms as int,
                slot as int,
                self.transfer_ms() as int,
            ) <= usize::MAX {
                Some(
                    client_delta(
                        self.latency_ms() as int,
                        elapsed_ms as int,
                        slot as int,
                        self.transfer_ms() as int,
                    ) as usize,
                )
            } else {
                None::<usize>
            }),
    {
        proof {
            assert(slot * self.time_block_transfer_ms <= 0xFFFF_FFFF_FFFF_FFFF
                * 0xFFFF_FFFF_FFFF_FFFF) by (nonlinear_arith)
                requires
                    slot <= 0xFFFF_FFFF_FFFF_FFFF,
                    self.time_block_transfer_ms <= 0xFFFF_FFFF_FFFF_FFFF,
            ;
        }
        let ahead: u128 = slot as u128 * self.time_block_transfer_ms as u128;
        let delta: u128 = (self.latency / 2) as u128 + elapsed_ms as u128 + ahead;
        if delta <= usize::MAX as u128 {
            Some(delta as usize)
        } else {
            None
        }
    }

    /// What the clock gives for `slot` when it shows that `elapsed`
    /// milliseconds have passed: the time at the client when the block of
    /// the slot arrives, or `None` where that does not fit in a machine
    /// word.
    pub open spec fn reading(&self, elapsed: int, slot: int) -> Option<usize> {
        let delta = client_delta(
            self.latency_ms() as int,
            elapsed,
            slot,
            self.transfer_ms() as int,
        );
        if delta <= usize::MAX {
            Some(delta as usize)
        } else {
            None
        }
    }

    /// The time at the client when the block of `slot` arrives, measured on
    /// the clock: time runs from the reference instant, or stands at zero
    /// while none is set. `None` where the time does not fit in a machine
    /// word. What the clock shows is not known beforehand: the result is the
    /// reading for some time that has passed, and for none on a standing
    /// clock.
    pub fn slot_to_client_delta(&self, slot: usize) -> (r: Option<usize>)
        ensures
            exists|elapsed: int|
                0 <= elapsed && (!self.timed() ==> elapsed == 0) && r == #[trigger] self.reading(
                    elapsed,
                    slot as int,
                ),
            !self.timed() ==> r == self.reading(0, slot as int),
    {
        let progress: u128 = match &self.time {
            Some(time) => whole_millis(&elapsed_since(time)),
            None => 0,
        };
        if progress > usize::MAX as u128 {
            proof {
                assert(slot * self.transfer_ms() >= 0) by (nonlinear_arith)
                    requires
                        slot >= 0,
                        self.transfer_ms() >= 0,
                ;
                assert(self.reading(progress as int, slot as int).is_none());
            }
            return None;
        }
        let r = self.delta_after(progress as usize, slot);
        proof {
            assert(r == self.reading(progress as int, slot as int));
        }
        r
    }

    /// Sets the size of a block, in bits, and with it the time to transfer
    /// one at the current bandwidth.
    pub fn update_blocksize_megabits(&mut self, bsize_megabits: u64)
        ensures
            final(self).blocksize() == bsize_megabits,
            final(self).transfer_ms() == transfer_time_ms(
                old(self).bandwidth() as int,
                bsize_megabits as int,
            ),
            final(self).latency_ms() == old(self).latency_ms(),
            final(self).bandwidth() == old(self).bandwidth(),
            final(self).timed() == old(self).timed(),
            final(self).reference() == old(self).reference(),
            final(self).shared_cell() == old(self).shared_cell(),
    {
        self.blocksize_megabits = bsize_megabits;
        let bw: u64 = self.bw;
        self.update_transfer_time(bw, bsize_megabits);
    }

    /// Sets the round-trip latency, in milliseconds.
    pub fn update_latency(&mut self, latency: usize)
        ensures
            final(self).latency_ms() == latency,
            final(self).transfer_ms() == old(self).transfer_ms(),
            final(self).bandwidth() == old(self).bandwidth(),
            final(self).blocksize() == old(self).blocksize(),
            final(self).timed() == old(self).timed(),
            final(self).reference() == old(self).reference(),
            final(self).shared_cell() == old(self).shared_cell(),
    {
        self.latency = latency;
    }

    /// Sets the bandwidth, in bits per second, here and in the shared cell,
    /// and with it the time to transfer one block.
    pub fn update_bandwidth(&mut self, bw: u64)
        ensures
            final(self).bandwidth() == bw,
            final(self).transfer_ms() == transfer_time_ms(bw as int, old(self).blocksize() as int),
            final(self).latency_ms() == old(self).latency_ms(),
            final(self).blocksize() == old(self).blocksize(),
            final(self).timed() == old(self).timed(),
            final(self).reference() == old(self).reference(),
            final(self).shared_cell() == old(self).shared_cell(),
    {
        self.bw_cell.store(bw);
        self.bw = bw;
        let size: u64 = self.blocksize_megabits;
        self.update_transfer_time(bw, size);
    }

    /// A handle to the cell that mirrors the bandwidth, for a reader that
    /// does not hold the manager: the cell that the manager was made with
    /// and that every change of the bandwidth is stored into.
    pub fn get_ref_bw(&self) -> (r: Arc<AtomicCell<u64>>)
        ensures
            r == self.shared_cell(),
    {
        share_cell(&self.bw_cell)
    }

    /// Sets the reference instant: time at the client runs from `time`.
    pub fn update_time(&mut self, time: Instant)
        ensures
            final(self).timed(),
            final(self).reference() == Some(time),
            final(self).transfer_ms() == old(self).transfer_ms(),
            final(self).latency_ms() == old(self).latency_ms(),
            final(self).bandwidth() == old(self).bandwidth(),
            final(self).blocksize() == old(self).blocksize(),
            final(self).shared_cell() == old(self).shared_cell(),
    {
        self.time = Some(time);
    }
}

} // verus!
